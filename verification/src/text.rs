//! Lines of text as placed glyphs: the built-in bitmaps for ASCII, and for other characters what a
//! font drew for them. Text in ASCII alone never needs a font.
use crate::font8x8;
use crate::font8x8::glyph;
use crate::strings;
use crate::strings::{chars_of, contains, lower_all, string_of};
use vstd::prelude::*;

verus! {

/// How many pixels high a font draws a character, for each pixel of a bitmap.
pub const TTF_PX_PER_CELL: u32 = 12;

/// What a font drew for a character.
#[derive(Clone)]
pub struct Ink {
    pub w: u32,
    pub h: u32,
    /// How far to the right of the pen it begins.
    pub left: i32,
    /// How far above the baseline it begins.
    pub top: i32,
    /// How far the pen moves on.
    pub advance: u32,
    /// The coverage of each pixel, row by row from the top.
    pub gray: Vec<u8>,
}

/// What a font drew for the characters that a text needs, at one size. A character that is not
/// there is one that the font cannot draw.
pub struct Inks {
    pub entries: Vec<(char, Ink)>,
}

/// The pixels of a glyph.
pub enum GlyphBody {
    /// A bitmap of eight rows, each pixel drawn as a square of `cell` by `cell`.
    Bits { bits: [u8; 8], cell: u32 },
    /// The coverage of `w` by `h` pixels; `ascent` is how far above the baseline they begin.
    Gray { gray: Vec<u8>, w: u32, h: u32, ascent: i32 },
}

/// A glyph and where its upper left corner is.
pub struct Glyph {
    pub x: i32,
    pub y: i32,
    pub body: GlyphBody,
}

/// The glyphs of a line.
pub struct Run {
    pub glyphs: Vec<Glyph>,
    /// How far the pen moved.
    pub width: u32,
    /// The upper edge of the highest glyph, at most that of the bitmaps.
    pub top: i32,
    /// The lower edge of the lowest glyph, at least that of the bitmaps.
    pub bottom: i32,
}

impl GlyphBody {
    /// Whether there is a coverage for each pixel.
    pub open spec fn wf(self) -> bool {
        match self {
            GlyphBody::Bits { .. } => true,
            GlyphBody::Gray { gray, w, h, .. } => gray@.len() == w * h && w * h <= u32::MAX,
        }
    }

    /// How high the glyph is.
    pub open spec fn height(self) -> int {
        match self {
            GlyphBody::Bits { cell, .. } => 8 * cell,
            GlyphBody::Gray { h, .. } => h as int,
        }
    }

    /// How far above the baseline the glyph begins.
    pub open spec fn rise(self) -> int {
        match self {
            GlyphBody::Bits { cell, .. } => 8 * cell,
            GlyphBody::Gray { ascent, .. } => ascent as int,
        }
    }
}

/// The larger of a multiple and one.
pub open spec fn at_least(n: int, least: int) -> int {
    if n < least {
        least
    } else {
        n
    }
}

/// What the font drew for `c`, among the entries from `i` on.
pub open spec fn ink_from(entries: Seq<(char, Ink)>, c: char, i: int) -> Option<Ink>
    decreases entries.len() - i,
{
    if i < 0 || i >= entries.len() {
        None
    } else if entries[i].0 == c {
        Some(entries[i].1)
    } else {
        ink_from(entries, c, i + 1)
    }
}

impl Inks {
    /// What the font drew for `c`.
    pub open spec fn ink(self, c: char) -> Option<Ink> {
        ink_from(self.entries@, c, 0)
    }

    /// Whether each entry has a coverage for each pixel.
    pub open spec fn wf(self) -> bool {
        forall|i: int|
            0 <= i < self.entries@.len() ==> (#[trigger] self.entries@[i]).1.gray@.len()
                == self.entries@[i].1.w * self.entries@[i].1.h && self.entries@[i].1.w
                * self.entries@[i].1.h <= u32::MAX
    }

    /// How far `c` moves the pen, in bitmaps of `cell`: eight cells for ASCII and for what nothing
    /// draws, and else what the font says, at least one pixel.
    pub open spec fn advance(self, c: char, cell: int) -> int {
        match self.ink(c) {
            Some(ink) => if (c as u32) < 128 {
                8 * cell
            } else {
                at_least(ink.advance as int, 1)
            },
            None => 8 * cell,
        }
    }

    /// Whether something draws `c`.
    pub open spec fn drawn(self, c: char) -> bool {
        (c as u32) < 128 || self.ink(c) is Some
    }

    /// Whether `body` is the glyph of `c`.
    pub open spec fn is_glyph(self, c: char, cell: u32, body: GlyphBody) -> bool {
        if (c as u32) < 128 {
            body == GlyphBody::Bits { bits: font8x8::rows_of(c as int), cell }
        } else {
            match (self.ink(c), body) {
                (Some(ink), GlyphBody::Gray { gray, w, h, ascent }) => gray@ == ink.gray@ && w
                    == ink.w && h == ink.h && ascent == at_least(ink.top as int, 0),
                _ => false,
            }
        }
    }

    /// How far the first `n` characters move the pen.
    pub open spec fn pen(self, text: Seq<char>, cell: int, n: int) -> int
        decreases n,
    {
        if n <= 0 {
            0
        } else {
            self.pen(text, cell, n - 1) + self.advance(text[n - 1], cell)
        }
    }

    /// How many of the first `n` characters something draws.
    pub open spec fn drawn_count(self, text: Seq<char>, n: int) -> int
        decreases n,
    {
        if n <= 0 {
            0
        } else {
            self.drawn_count(text, n - 1) + (if self.drawn(text[n - 1]) {
                1int
            } else {
                0
            })
        }
    }

    /// How far above the baseline the glyph of `c` begins.
    pub open spec fn rise(self, c: char, cell: int) -> int {
        match self.ink(c) {
            Some(ink) => if (c as u32) < 128 {
                8 * cell
            } else {
                at_least(ink.top as int, 0)
            },
            None => 8 * cell,
        }
    }

    /// How high the glyph of `c` is.
    pub open spec fn height(self, c: char, cell: int) -> int {
        match self.ink(c) {
            Some(ink) => if (c as u32) < 128 {
                8 * cell
            } else {
                ink.h as int
            },
            None => 8 * cell,
        }
    }

    /// The upper edge of the first `n` characters on the baseline `base`.
    pub open spec fn top_edge(self, text: Seq<char>, cell: int, base: int, n: int) -> int
        decreases n,
    {
        if n <= 0 {
            base - 8 * cell
        } else {
            let before = self.top_edge(text, cell, base, n - 1);
            let c = text[n - 1];
            if self.drawn(c) && base - self.rise(c, cell) < before {
                base - self.rise(c, cell)
            } else {
                before
            }
        }
    }

    /// The lower edge of the first `n` characters on the baseline `base`.
    pub open spec fn bottom_edge(self, text: Seq<char>, cell: int, base: int, n: int) -> int
        decreases n,
    {
        if n <= 0 {
            base
        } else {
            let before = self.bottom_edge(text, cell, base, n - 1);
            let c = text[n - 1];
            let low = base - self.rise(c, cell) + self.height(c, cell);
            if self.drawn(c) && low > before {
                low
            } else {
                before
            }
        }
    }

    /// Whether the line fits in the numbers that it is laid out with.
    pub open spec fn fits(self, text: Seq<char>, cell: int, top: int) -> bool {
        &&& i32::MIN <= top
        &&& top + 8 * cell <= i32::MAX
        &&& self.pen(text, cell, text.len() as int) <= i32::MAX
        &&& forall|i: int|
            0 <= i < text.len() ==> {
                let c = #[trigger] text[i];
                let y = top + 8 * cell - self.rise(c, cell);
                i32::MIN <= y && y + self.height(c, cell) <= i32::MAX
            }
    }
}

/// What `shape` owes: a glyph for each character that something draws, at the pen and on the
/// baseline, and a hole of eight cells for each other.
pub open spec fn is_run(run: Run, inks: Inks, text: Seq<char>, cell: u32, top: int, n: int) -> bool {
    let base = top + 8 * cell;
    &&& run.width == inks.pen(text, cell as int, n)
    &&& run.top == inks.top_edge(text, cell as int, base, n)
    &&& run.bottom == inks.bottom_edge(text, cell as int, base, n)
    &&& run.glyphs@.len() == inks.drawn_count(text, n)
    &&& forall|i: int|
        0 <= i < n && inks.drawn(#[trigger] text[i]) ==> {
            let g = run.glyphs@[inks.drawn_count(text, i)];
            &&& inks.is_glyph(text[i], cell, g.body)
            &&& g.x == inks.pen(text, cell as int, i)
            &&& g.y == base - inks.rise(text[i], cell as int)
        }
    &&& forall|k: int| 0 <= k < run.glyphs@.len() ==> (#[trigger] run.glyphs@[k]).body.wf()
}

impl Inks {
    /// No font.
    pub fn none() -> (r: Self)
        ensures
            r.wf(),
            r.entries@.len() == 0,
    {
        Inks { entries: Vec::new() }
    }

    /// What the font drew for `c`.
    fn find(&self, c: char) -> (r: Option<usize>)
        ensures
            match r {
                Some(i) => i < self.entries@.len() && self.ink(c) == Some(self.entries@[i as int].1),
                None => self.ink(c) is None,
            },
    {
        let mut i: usize = 0;
        while i < self.entries.len()
            invariant
                i <= self.entries@.len(),
                self.ink(c) == ink_from(self.entries@, c, i as int),
            decreases self.entries@.len() - i,
        {
            if self.entries[i].0 == c {
                return Some(i);
            }
            i = i + 1;
        }
        None
    }

    /// The glyph of `c` and how far it moves the pen; `None` where nothing draws it. ASCII is
    /// always a bitmap, and nothing else ever is.
    pub fn glyph(&self, c: char, cell: u32) -> (r: Option<(u32, GlyphBody)>)
        requires
            self.wf(),
            8 * cell <= u32::MAX,
        ensures
            r is Some <==> self.drawn(c),
            r matches Some((advance, body)) ==> advance == self.advance(c, cell as int)
                && self.is_glyph(c, cell, body) && body.wf() && body.rise() == self.rise(
                c,
                cell as int,
            ) && body.height() == self.height(c, cell as int),
    {
        let code: u32 = c as u32;
        if code < 128 {
            return Some((8 * cell, GlyphBody::Bits { bits: glyph(code as u8), cell }));
        }
        match self.find(c) {
            None => None,
            Some(i) => {
                let ink = &self.entries[i].1;
                let gray = ink.gray.clone();
                assert(gray@ =~= ink.gray@);
                let advance: u32 = if ink.advance == 0 {
                    1
                } else {
                    ink.advance
                };
                let ascent: i32 = if ink.top < 0 {
                    0
                } else {
                    ink.top
                };
                Some((advance, GlyphBody::Gray { gray, w: ink.w, h: ink.h, ascent }))
            },
        }
    }

    /// How far above the baseline the glyph of `c` begins, and how high it is.
    fn extent(&self, c: char, cell: u32) -> (r: (i64, i64))
        requires
            8 * cell <= u32::MAX,
        ensures
            r.0 == self.rise(c, cell as int),
            r.1 == self.height(c, cell as int),
            0 <= r.0 <= u32::MAX,
            0 <= r.1 <= u32::MAX,
    {
        let side: i64 = 8 * cell as i64;
        if (c as u32) < 128 {
            return (side, side);
        }
        match self.find(c) {
            Some(i) => {
                let ink = &self.entries[i].1;
                (
                    if ink.top < 0 {
                        0
                    } else {
                        ink.top as i64
                    },
                    ink.h as i64,
                )
            },
            None => (side, side),
        }
    }

    /// How far `c` moves the pen.
    pub fn advance_of(&self, c: char, cell: u32) -> (r: u32)
        requires
            8 * cell <= u32::MAX,
        ensures
            r == self.advance(c, cell as int),
    {
        if (c as u32) < 128 {
            return 8 * cell;
        }
        match self.find(c) {
            Some(i) => {
                let a: u32 = self.entries[i].1.advance;
                if a == 0 {
                    1
                } else {
                    a
                }
            },
            None => 8 * cell,
        }
    }
}

proof fn lemma_pen_grows(inks: Inks, text: Seq<char>, cell: int, a: int, b: int)
    requires
        cell >= 1,
        0 <= a <= b,
    ensures
        0 <= inks.pen(text, cell, a) <= inks.pen(text, cell, b),
    decreases b,
{
    if b > 0 {
        if a < b {
            lemma_pen_grows(inks, text, cell, a, b - 1);
        } else {
            lemma_pen_grows(inks, text, cell, a - 1, b - 1);
        }
    }
}

proof fn lemma_drawn_count(inks: Inks, text: Seq<char>, a: int, b: int)
    requires
        0 <= a <= b,
    ensures
        0 <= inks.drawn_count(text, a) <= inks.drawn_count(text, b),
        a < b && inks.drawn(text[a]) ==> inks.drawn_count(text, a) < inks.drawn_count(text, b),
    decreases b,
{
    if b > 0 {
        if a < b {
            lemma_drawn_count(inks, text, a, b - 1);
        } else {
            lemma_drawn_count(inks, text, a - 1, b - 1);
        }
    }
}

proof fn lemma_edges(inks: Inks, text: Seq<char>, cell: int, top: int, n: int)
    requires
        inks.fits(text, cell, top),
        0 <= n <= text.len(),
        cell >= 1,
    ensures
        i32::MIN <= inks.top_edge(text, cell, top + 8 * cell, n) <= i32::MAX,
        i32::MIN <= inks.bottom_edge(text, cell, top + 8 * cell, n) <= i32::MAX,
    decreases n,
{
    if n > 0 {
        lemma_edges(inks, text, cell, top, n - 1);
        let c = text[n - 1];
    }
}

/// Whether the line fits in the numbers that it is laid out with.
pub fn can_shape(text: &str, cell: u32, top: i32, inks: &Inks) -> (r: bool)
    ensures
        r == inks.fits(text@, at_least(cell as int, 1), top as int),
{
    let size: u32 = if cell == 0 {
        1
    } else {
        cell
    };
    let base: i64 = top as i64 + 8 * size as i64;
    if base > i32::MAX as i64 {
        return false;
    }
    let chars = chars_of(text);
    let ghost n = chars@.len() as int;
    let mut pen: u64 = 0;
    let mut i: usize = 0;
    while i < chars.len()
        invariant
            i <= chars@.len() == n,
            chars@ == text@,
            size >= 1,
            size == at_least(cell as int, 1),
            base == top + 8 * size,
            base <= i32::MAX,
            pen == inks.pen(text@, size as int, i as int),
            pen <= i32::MAX,
            forall|k: int|
                0 <= k < i ==> {
                    let c = #[trigger] text@[k];
                    let y = base - inks.rise(c, size as int);
                    i32::MIN <= y && y + inks.height(c, size as int) <= i32::MAX
                },
        decreases chars@.len() - i,
    {
        let c: char = chars[i];
        pen = pen + inks.advance_of(c, size) as u64;
        if pen > i32::MAX as u64 {
            proof {
                lemma_pen_grows(*inks, text@, size as int, i + 1, n);
            }
            return false;
        }
        let (rise, height): (i64, i64) = inks.extent(c, size);
        let y: i64 = base - rise;
        if y < i32::MIN as i64 || y + height > i32::MAX as i64 {
            assert(text@[i as int] == c);
            return false;
        }
        i = i + 1;
    }
    true
}

/// Lays out a line. `cell` is how many pixels wide and high a pixel of a bitmap is, at least one,
/// and `top` the upper edge of the bitmaps; all glyphs stand on the baseline eight cells below it.
pub fn shape(text: &str, cell: u32, top: i32, inks: &Inks) -> (run: Run)
    requires
        inks.wf(),
        inks.fits(text@, at_least(cell as int, 1), top as int),
    ensures
        is_run(run, *inks, text@, at_least(cell as int, 1) as u32, top as int, text@.len() as int),
{
    let size: u32 = if cell == 0 {
        1
    } else {
        cell
    };
    let chars = chars_of(text);
    let ghost s = text@;
    let ghost ci = size as int;
    let ghost base = top + 8 * size;
    let base_y: i32 = (top as i64 + 8 * size as i64) as i32;
    let mut run = Run { glyphs: Vec::new(), width: 0, top, bottom: base_y };
    let mut i: usize = 0;
    while i < chars.len()
        invariant
            i <= chars@.len(),
            chars@ == s,
            ci == size,
            size >= 1,
            8 * size <= u32::MAX,
            base == top + 8 * size,
            base_y == base,
            inks.wf(),
            inks.fits(s, ci, top as int),
            is_run(run, *inks, s, size, top as int, i as int),
        decreases chars@.len() - i,
    {
        let c: char = chars[i];
        proof {
            lemma_pen_grows(*inks, s, ci, i + 1, s.len() as int);
            lemma_edges(*inks, s, ci, top as int, i as int);
            lemma_edges(*inks, s, ci, top as int, i + 1);
            assert(s[i as int] == c);
        }
        let ghost before = run;
        match inks.glyph(c, size) {
            Some((advance, body)) => {
                let (rise, high): (i64, i64) = match &body {
                    GlyphBody::Bits { cell, .. } => (8 * *cell as i64, 8 * *cell as i64),
                    GlyphBody::Gray { h, ascent, .. } => (*ascent as i64, *h as i64),
                };
                let y: i64 = base_y as i64 - rise;
                if y < run.top as i64 {
                    run.top = y as i32;
                }
                if y + high > run.bottom as i64 {
                    run.bottom = (y + high) as i32;
                }
                run.glyphs.push(Glyph { x: run.width as i32, y: y as i32, body });
                run.width = run.width + advance;
            },
            None => {
                run.width = run.width + 8 * size;
            },
        }
        proof {
            assert forall|j: int| 0 <= j < i + 1 && inks.drawn(#[trigger] s[j]) implies {
                let g = run.glyphs@[inks.drawn_count(s, j)];
                &&& inks.is_glyph(s[j], size, g.body)
                &&& g.x == inks.pen(s, ci, j)
                &&& g.y == base - inks.rise(s[j], ci)
            } by {
                lemma_drawn_count(*inks, s, j, i as int);
            }
        }
        i = i + 1;
    }
    run
}

/// The longest beginning of `text` that is at most `max_w` pixels wide.
pub fn fit(text: &str, cell: u32, max_w: u32, inks: &Inks) -> (r: String)
    requires
        8 * cell <= u32::MAX,
    ensures
        r@.len() <= text@.len(),
        r@ == text@.take(r@.len() as int),
        inks.pen(text@, at_least(cell as int, 1), r@.len() as int) <= max_w,
        r@.len() < text@.len() ==> inks.pen(
            text@,
            at_least(cell as int, 1),
            r@.len() as int + 1,
        ) > max_w,
{
    let size: u32 = if cell == 0 {
        1
    } else {
        cell
    };
    let chars = chars_of(text);
    let mut used: u32 = 0;
    let mut i: usize = 0;
    while i < chars.len()
        invariant_except_break
            i <= chars@.len(),
        invariant
            i <= chars@.len(),
            chars@ == text@,
            size == at_least(cell as int, 1),
            8 * size <= u32::MAX,
            used == inks.pen(text@, size as int, i as int),
            used <= max_w,
        ensures
            i < chars@.len() ==> inks.pen(text@, size as int, i + 1) > max_w,
        decreases chars@.len() - i,
    {
        let a: u32 = inks.advance_of(chars[i], size);
        if a > max_w - used {
            break;
        }
        used = used + a;
        i = i + 1;
    }
    assert(chars@.subrange(0, i as int) =~= text@.take(i as int));
    string_of(&chars[0..i])
}

/// The beginnings of a line that fit in a width are those up to the longest, and laid out none of
/// them is wider than that; the next longer one is. `n` is how many characters are kept.
pub proof fn law_fit_is_longest(inks: Inks, text: Seq<char>, cell: u32, max_w: int, n: int, k: int, run: Run, top: int)
    requires
        cell >= 1,
        0 <= n <= text.len(),
        inks.pen(text, cell as int, n) <= max_w,
        n < text.len() ==> inks.pen(text, cell as int, n + 1) > max_w,
        0 <= k <= text.len(),
        is_run(run, inks, text.take(k), cell, top, k),
    ensures
        run.width <= max_w <==> k <= n,
{
    law_fit_is_shape(inks, text, cell as int, k);
    if k <= n {
        lemma_pen_grows(inks, text, cell as int, k, n);
    } else {
        lemma_pen_grows(inks, text, cell as int, n + 1, k);
    }
}

/// What fits is as wide as it is laid out: a line cut to a width is never laid out wider.
pub proof fn law_fit_is_shape(inks: Inks, text: Seq<char>, cell: int, n: int)
    requires
        0 <= n <= text.len(),
    ensures
        inks.pen(text.take(n), cell, n) == inks.pen(text, cell, n),
{
    lemma_pen_prefix(inks, text, cell, n, n);
}

proof fn lemma_pen_prefix(inks: Inks, text: Seq<char>, cell: int, n: int, k: int)
    requires
        0 <= k <= n <= text.len(),
    ensures
        inks.pen(text.take(n), cell, k) == inks.pen(text, cell, k),
    decreases k,
{
    if k > 0 {
        lemma_pen_prefix(inks, text, cell, n, k - 1);
    }
}

/// A line in ASCII is the bitmaps alone: eight cells for each character, whatever the font.
pub proof fn law_ascii_is_bitmaps(inks: Inks, text: Seq<char>, cell: int, base: int, n: int)
    requires
        cell >= 1,
        0 <= n <= text.len(),
        forall|i: int| 0 <= i < text.len() ==> (#[trigger] text[i] as u32) < 128,
    ensures
        inks.pen(text, cell, n) == 8 * cell * n,
        inks.drawn_count(text, n) == n,
        inks.top_edge(text, cell, base, n) == base - 8 * cell,
        inks.bottom_edge(text, cell, base, n) == base,
    decreases n,
{
    if n > 0 {
        law_ascii_is_bitmaps(inks, text, cell, base, n - 1);
        assert((text[n - 1] as u32) < 128);
        assert(8 * cell * n == 8 * cell * (n - 1) + 8 * cell) by (nonlinear_arith);
    } else {
        assert(8 * cell * 0 == 0) by (nonlinear_arith);
    }
}

/// Whether each character is one of ASCII.
pub open spec fn is_ascii(s: Seq<char>) -> bool {
    forall|i: int| 0 <= i < s.len() ==> (#[trigger] s[i] as u32) < 128
}

/// A line in ASCII has a bitmap for each of its characters and nothing else.
pub proof fn law_ascii_run_is_bitmaps(run: Run, inks: Inks, text: Seq<char>, cell: u32, top: int)
    requires
        cell >= 1,
        is_ascii(text),
        is_run(run, inks, text, cell, top, text.len() as int),
    ensures
        run.glyphs@.len() == text.len(),
        forall|i: int| 0 <= i < run.glyphs@.len() ==> (#[trigger] run.glyphs@[i]).body is Bits,
{
    let base = top + 8 * cell;
    law_ascii_is_bitmaps(inks, text, cell as int, base, text.len() as int);
    assert forall|i: int| 0 <= i < run.glyphs@.len() implies (
    #[trigger] run.glyphs@[i]).body is Bits by {
        law_ascii_is_bitmaps(inks, text, cell as int, base, i);
        assert((text[i] as u32) < 128);
        assert(inks.drawn(text[i]));
    }
}

// ---- which font ----

/// Whether `s` ends in `tail`.
pub open spec fn ends_in(s: Seq<char>, tail: Seq<char>) -> bool {
    tail.len() <= s.len() && s.subrange(s.len() - tail.len(), s.len() as int) == tail
}

/// How well a font file suits, by its name: 0 is no font, and among fonts those for Chinese come
/// first, without serifs and not for other regions.
pub open spec fn rank(name: Seq<char>) -> int {
    let n = strings::lowered(name);
    let font = ends_in(n, ".ttf"@) || ends_in(n, ".otf"@) || ends_in(n, ".ttc"@) || ends_in(
        n,
        ".otc"@,
    );
    let cjk = strings::has_part(n, "cjk"@) || strings::has_part(n, "han"@) || strings::has_part(
        n,
        "wqy"@,
    ) || strings::has_part(n, "wenquanyi"@) || strings::has_part(n, "lxgw"@) || strings::has_part(
        n,
        "hei"@,
    );
    let other = strings::has_part(n, "serif"@) || strings::has_part(n, "mincho"@)
        || strings::has_part(n, "-jp"@) || strings::has_part(n, "-kr"@) || strings::has_part(
        n,
        "-tc"@,
    ) || strings::has_part(n, "hk"@);
    if !font {
        0
    } else if !cjk {
        1
    } else if other {
        2
    } else {
        4
    }
}

/// Whether `s` ends in `tail`.
pub fn ends_with(s: &[char], tail: &str) -> (r: bool)
    ensures
        r == ends_in(s@, tail@),
{
    let t = chars_of(tail);
    if t.len() > s.len() {
        return false;
    }
    strings::same_chars(&s[s.len() - t.len()..s.len()], &t)
}

/// Whether `part` stands in `s`.
fn holds(s: &[char], part: &str) -> (r: bool)
    ensures
        r == strings::has_part(s@, part@),
{
    contains(s, &chars_of(part))
}

/// How well a font file suits, by its name; 0 is no font.
pub fn font_rank(name: &str) -> (r: u8)
    ensures
        r == rank(name@),
{
    let n = lower_all(&chars_of(name));
    if !(ends_with(&n, ".ttf") || ends_with(&n, ".otf") || ends_with(&n, ".ttc") || ends_with(
        &n,
        ".otc",
    )) {
        return 0;
    }
    if !(holds(&n, "cjk") || holds(&n, "han") || holds(&n, "wqy") || holds(&n, "wenquanyi")
        || holds(&n, "lxgw") || holds(&n, "hei")) {
        return 1;
    }
    if holds(&n, "serif") || holds(&n, "mincho") || holds(&n, "-jp") || holds(&n, "-kr") || holds(
        &n,
        "-tc",
    ) || holds(&n, "hk") {
        2
    } else {
        4
    }
}

/// The upper-case form of an ASCII letter; any other character as it is.
pub open spec fn ascii_upper(c: char) -> char {
    if 'a' <= c <= 'z' {
        (c as int - 32) as char
    } else {
        c
    }
}

/// How well a face of a collection suits, by the name of its family: the simplified Chinese one
/// best, a Latin one next, and one for another region last.
pub open spec fn family_score(family: Seq<char>) -> int {
    let f = Seq::new(family.len(), |i: int| ascii_upper(family[i]));
    if strings::has_part(f, "CJK SC"@) || strings::has_part(f, "HAN SIMPLIFIED"@)
        || strings::has_part(f, "HEI"@) || strings::has_part(f, "SONG"@) {
        4
    } else if strings::has_part(f, "CJK"@) || strings::has_part(f, "HAN"@) {
        2
    } else {
        3
    }
}

/// How well a face of a collection suits, by the name of its family.
pub fn score_family(family: &str) -> (r: u8)
    ensures
        r == family_score(family@),
{
    let s = chars_of(family);
    let mut f: Vec<char> = Vec::new();
    let mut i: usize = 0;
    while i < s.len()
        invariant
            i <= s@.len(),
            f@.len() == i,
            forall|j: int| 0 <= j < i ==> f@[j] == ascii_upper(s@[j]),
        decreases s@.len() - i,
    {
        let c: char = s[i];
        f.push(
            if 'a' <= c && c <= 'z' {
                (c as u8 - 32) as char
            } else {
                c
            },
        );
        i = i + 1;
    }
    assert(f@ =~= Seq::new(family@.len(), |i: int| ascii_upper(family@[i])));
    if holds(&f, "CJK SC") || holds(&f, "HAN SIMPLIFIED") || holds(&f, "HEI") || holds(&f, "SONG") {
        4
    } else if holds(&f, "CJK") || holds(&f, "HAN") {
        2
    } else {
        3
    }
}

/// A line reaches from the highest to the lowest of its glyphs, and at least over the eight cells
/// above the baseline.
pub proof fn law_edges_hold_all_glyphs(inks: Inks, text: Seq<char>, cell: int, base: int, n: int, i: int)
    requires
        0 <= i < n <= text.len(),
        inks.drawn(text[i]),
    ensures
        inks.top_edge(text, cell, base, n) <= base - inks.rise(text[i], cell),
        inks.top_edge(text, cell, base, n) <= base - 8 * cell,
        inks.bottom_edge(text, cell, base, n) >= base - inks.rise(text[i], cell) + inks.height(text[i], cell),
        inks.bottom_edge(text, cell, base, n) >= base,
    decreases n,
{
    law_edges_are_tight(inks, text, cell, base, n);
    if i < n - 1 {
        law_edges_hold_all_glyphs(inks, text, cell, base, n - 1, i);
    }
}

/// A line reaches no further than it has to.
pub proof fn law_edges_are_tight(inks: Inks, text: Seq<char>, cell: int, base: int, n: int)
    ensures
        inks.top_edge(text, cell, base, n) <= base - 8 * cell,
        inks.bottom_edge(text, cell, base, n) >= base,
        inks.top_edge(text, cell, base, n) == base - 8 * cell || exists|i: int|
            0 <= i < n && inks.drawn(#[trigger] text[i]) && inks.top_edge(text, cell, base, n) == base
                - inks.rise(text[i], cell),
        inks.bottom_edge(text, cell, base, n) == base || exists|i: int|
            0 <= i < n && inks.drawn(#[trigger] text[i]) && inks.bottom_edge(text, cell, base, n) == base
                - inks.rise(text[i], cell) + inks.height(text[i], cell),
    decreases n,
{
    if n > 0 {
        law_edges_are_tight(inks, text, cell, base, n - 1);
        let c = text[n - 1];
    }
}

/// The pen moves on by eight cells for a character of ASCII, and for one that nothing draws, and else
/// by what the font says, at least by a pixel; and a glyph of a font begins as far above the baseline
/// as the font says.
pub proof fn law_characters_take_their_room(inks: Inks, text: Seq<char>, cell: int, i: int)
    requires
        0 <= i < text.len(),
    ensures
        ({
            let step = inks.pen(text, cell, i + 1) - inks.pen(text, cell, i);
            &&& (text[i] as u32) < 128 ==> step == 8 * cell && inks.rise(text[i], cell) == 8 * cell
            &&& inks.ink(text[i]) is None ==> step == 8 * cell
            &&& (text[i] as u32) >= 128 ==> (inks.ink(text[i]) matches Some(ink) ==> step >= 1 && (
            ink.advance >= 1 ==> step == ink.advance) && (ink.top >= 0 ==> inks.rise(text[i], cell)
                == ink.top) && inks.height(text[i], cell) == ink.h)
        }),
{
}

} // verus!
