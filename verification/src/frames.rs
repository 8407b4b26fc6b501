//! What the frames of animations show: the rows and the samples of a PNG, the pixels of a GIF, and
//! what frames leave on the canvas.
use crate::bytes;
use crate::gif;
use crate::gif::Picture;
use crate::png;
use crate::png::{FrameCtl, Layout};
use crate::render;
use vstd::prelude::*;

verus! {

// ---- the filters of a PNG ----

/// The distance of two numbers.
pub open spec fn apart(a: int, b: int) -> int {
    if a < b {
        b - a
    } else {
        a - b
    }
}

/// Whether `q` is what Paeth's filter predicts: of left, above and above left the closest to left
/// plus above minus above left, and the first of those that are as close.
pub open spec fn is_closest(q: int, left: int, above: int, corner: int) -> bool {
    let p = left + above - corner;
    &&& q == left || q == above || q == corner
    &&& apart(p, q) <= apart(p, left)
    &&& apart(p, q) <= apart(p, above)
    &&& apart(p, q) <= apart(p, corner)
    &&& apart(p, q) == apart(p, left) ==> q == left
    &&& apart(p, q) == apart(p, above) && q != left ==> q == above
}

/// Paeth's filter predicts the closest neighbour.
pub proof fn law_paeth_is_closest(left: int, above: int, corner: int, q: int)
    ensures
        is_closest(q, left, above, corner) <==> q == png::paeth_of(left, above, corner),
{
}

/// A byte of a row, and 0 where there is none.
pub open spec fn at_or_zero(row: Seq<u8>, i: int) -> int {
    if 0 <= i < row.len() {
        row[i] as int
    } else {
        0
    }
}

/// Whether a filter predicts `q` for the byte `i` of a row: nothing, the byte a pixel to the left, the
/// one above, the mean of these two, or Paeth's.
pub open spec fn predicts(ft: u8, row: Seq<u8>, prev: Seq<u8>, bpp: int, i: int, q: int) -> bool {
    let (left, above, corner) = (
        at_or_zero(row, i - bpp),
        at_or_zero(prev, i),
        at_or_zero(prev, i - bpp),
    );
    if ft == 0 {
        q == 0
    } else if ft == 1 {
        q == left
    } else if ft == 2 {
        q == above
    } else if ft == 3 {
        2 * q == left + above || 2 * q + 1 == left + above
    } else {
        is_closest(q, left, above, corner)
    }
}

/// Whether `written` is how a filter writes a row: of each byte what it is more than the prediction.
pub open spec fn is_filtered(ft: u8, written: Seq<u8>, row: Seq<u8>, prev: Seq<u8>, bpp: int) -> bool {
    &&& written.len() == row.len()
    &&& forall|i: int|
        0 <= i < row.len() ==> exists|q: int| #[trigger]
            predicts(ft, row, prev, bpp, i, q) && (#[trigger] written[i] + q - row[i]) % 256 == 0
}

/// A row that was filtered is read back.
pub proof fn law_filters_are_undone(ft: u8, written: Seq<u8>, row: Seq<u8>, prev: Seq<u8>, bpp: int)
    requires
        ft <= 4,
        bpp >= 1,
        is_filtered(ft, written, row, prev, bpp),
    ensures
        png::unfiltered(ft, written, prev, bpp, row.len() as int) == row,
{
    lemma_unfiltered(ft, written, row, prev, bpp, row.len() as int);
    assert(row.take(row.len() as int) =~= row);
}

proof fn lemma_unfiltered(ft: u8, written: Seq<u8>, row: Seq<u8>, prev: Seq<u8>, bpp: int, n: int)
    requires
        ft <= 4,
        bpp >= 1,
        is_filtered(ft, written, row, prev, bpp),
        0 <= n <= row.len(),
    ensures
        png::unfiltered(ft, written, prev, bpp, n) == row.take(n),
    decreases n,
{
    if n == 0 {
        assert(row.take(0) =~= Seq::<u8>::empty());
    } else {
        let i = n - 1;
        lemma_unfiltered(ft, written, row, prev, bpp, i);
        let front = row.take(i);
        let w = written[i] as int;
        let q = choose|q: int| #[trigger]
            predicts(ft, row, prev, bpp, i, q) && (w + q - row[i]) % 256 == 0;
        assert(at_or_zero(row, i - bpp) == png::byte_or_zero(front, i - bpp));
        law_paeth_is_closest(
            at_or_zero(row, i - bpp),
            at_or_zero(prev, i),
            at_or_zero(prev, i - bpp),
            q,
        );
        let p = png::predicted(
            ft,
            png::byte_or_zero(front, i - bpp),
            png::byte_or_zero(prev, i),
            png::byte_or_zero(prev, i - bpp),
        );
        assert(p == q);
        assert((w + q) % 256 == row[i]);
        assert(row.take(n) =~= front.push(row[i]));
    }
}

// ---- the samples of a PNG ----

/// Samples of fewer than eight bits stand in a byte from the left to the right: the first in the
/// highest bits.
pub proof fn law_small_samples_fill_bytes(l: Layout, row: Seq<u8>, k: int)
    requires
        0 <= k < row.len(),
        l.depth == 1 || l.depth == 2 || l.depth == 4,
    ensures
        l.depth == 4 ==> row[k] == 16 * l.sample(row, 2 * k, 0) + l.sample(row, 2 * k + 1, 0),
        l.depth == 2 ==> row[k] == 64 * l.sample(row, 4 * k, 0) + 16 * l.sample(row, 4 * k + 1, 0) + 4
            * l.sample(row, 4 * k + 2, 0) + l.sample(row, 4 * k + 3, 0),
        l.depth == 1 ==> row[k] == 128 * l.sample(row, 8 * k, 0) + 64 * l.sample(row, 8 * k + 1, 0) + 32
            * l.sample(row, 8 * k + 2, 0) + 16 * l.sample(row, 8 * k + 3, 0) + 8 * l.sample(
            row,
            8 * k + 4,
            0,
        ) + 4 * l.sample(row, 8 * k + 5, 0) + 2 * l.sample(row, 8 * k + 6, 0) + l.sample(
            row,
            8 * k + 7,
            0,
        ),
        forall|x: int| (#[trigger] l.sample(row, x, 0)) * l.gray_scale() <= 255,
{
    let b: u8 = row[k];
    assert(b == 16 * ((b >> 4u8) & 15) + ((b >> 0u8) & 15)) by (bit_vector);
    assert(b == 64 * ((b >> 6u8) & 3) + 16 * ((b >> 4u8) & 3) + 4 * ((b >> 2u8) & 3) + ((b >> 0u8) & 3))
        by (bit_vector);
    assert(b == 128 * ((b >> 7u8) & 1) + 64 * ((b >> 6u8) & 1) + 32 * ((b >> 5u8) & 1) + 16 * ((b
        >> 4u8) & 1) + 8 * ((b >> 3u8) & 1) + 4 * ((b >> 2u8) & 1) + 2 * ((b >> 1u8) & 1) + ((b >> 0u8)
        & 1)) by (bit_vector);
    if l.depth == 4 {
        assert((2 * k) * 4 / 8 == k && (2 * k) * 4 % 8 == 0);
        assert((2 * k + 1) * 4 / 8 == k && (2 * k + 1) * 4 % 8 == 4);
    } else if l.depth == 2 {
        assert((4 * k) * 2 / 8 == k && (4 * k) * 2 % 8 == 0);
        assert((4 * k + 1) * 2 / 8 == k && (4 * k + 1) * 2 % 8 == 2);
        assert((4 * k + 2) * 2 / 8 == k && (4 * k + 2) * 2 % 8 == 4);
        assert((4 * k + 3) * 2 / 8 == k && (4 * k + 3) * 2 % 8 == 6);
    } else {
        assert((8 * k + 7) / 8 == k && (8 * k + 7) % 8 == 7);
    }
    assert forall|x: int| (#[trigger] l.sample(row, x, 0)) * l.gray_scale() <= 255 by {
        let v: u8 = row[x * l.depth / 8];
        let s = (8 - l.depth - (x * l.depth) % 8) as u8;
        assert((v >> s) & 1 <= 1 && (v >> s) & 3 <= 3 && (v >> s) & 15 <= 15) by (bit_vector);
    }
}

/// Samples of whole bytes stand one after the other, and of two bytes the first counts.
pub proof fn law_whole_samples_follow(l: Layout, row: Seq<u8>, x: int, j: int)
    requires
        0 <= x,
        0 <= j < l.ch(),
    ensures
        l.depth == 8 ==> l.sample(row, x, j) == row[x * l.ch() + j],
        l.depth == 16 ==> l.sample(row, x, j) == row[2 * (x * l.ch() + j)],
{
    let c = l.ch();
    assert(x * c * 2 + j * 2 == 2 * (x * c + j)) by (nonlinear_arith);
}

/// What a pixel's samples mean. Gray goes from black to white whatever its depth, and one gray can be
/// transparent; three samples are red, green and blue; with a palette the sample is the place of its
/// color there, and the first colors have an alpha; a further sample is the alpha.
pub proof fn law_pixel_colors(l: Layout, row: Seq<u8>, x: int)
    requires
        l.color == 0 || l.color == 2 || l.color == 3 || l.color == 4 || l.color == 6,
        l.color == 0 ==> l.sample(row, x, 0) * l.gray_scale() <= 255,
    ensures
        ({
            let (a, b, c, d) = (
                l.sample(row, x, 0),
                l.sample(row, x, 1),
                l.sample(row, x, 2),
                l.sample(row, x, 3),
            );
            &&& l.color == 6 ==> l.pixel(row, x) == Some((a, b, c, d))
            &&& l.color == 2 ==> l.pixel(row, x) == Some((a, b, c, 255u8))
            &&& l.color == 4 ==> l.pixel(row, x) == Some((a, a, a, b))
            &&& l.color == 3 ==> (l.pixel(row, x) is Some <==> 3 * a + 3 <= l.palette.len())
            &&& l.color == 3 && 3 * a + 3 <= l.palette.len() ==> l.pixel(row, x) == Some(
                (
                    l.palette[3 * a],
                    l.palette[3 * a + 1],
                    l.palette[3 * a + 2],
                    if a < l.trns.len() {
                        l.trns[a as int]
                    } else {
                        255u8
                    },
                ),
            )
            &&& l.color == 0 ==> (l.pixel(row, x) matches Some((r, g, b, alpha)) && r == g && g == b
                && (alpha == 0 || alpha == 255) && (alpha == 0 <==> l.trns.len() >= 2 && l.trns[1] == r)
                && (a == 0 ==> r == 0) && (l.depth == 1 && a == 1 || l.depth == 2 && a == 3 || l.depth
                == 4 && a == 15 ==> r == 255) && (l.depth >= 8 ==> r == a) && (l.depth == 2 ==> 3 * r
                == 255 * a) && (l.depth == 4 ==> 15 * r == 255 * a))
        }),
{
    reveal(Layout::pixel);
}

// ---- the frames of a PNG ----

/// A component of a pixel of a canvas `w` wide.
pub open spec fn part(canvas: Seq<u8>, w: int, x: int, y: int, i: int) -> u8 {
    canvas[4 * (y * w + x) + i]
}

proof fn lemma_part(w: int, h: int, x: int, y: int, i: int)
    requires
        0 <= x < w,
        0 <= y < h,
        0 <= i < 4,
    ensures
        0 <= 4 * (y * w + x) + i < w * h * 4,
        (4 * (y * w + x) + i) / 4 == y * w + x,
        (4 * (y * w + x) + i) % 4 == i,
        (y * w + x) / w == y,
        (y * w + x) % w == x,
{
    render::lemma_place(x, y, w, h);
}

/// A frame that replaces what is there shows its own pixels where it lies, from its upper left corner
/// on, and beside it nothing changes.
pub proof fn law_frame_replaces(
    c: FrameCtl,
    canvas: Seq<u8>,
    w: int,
    h: int,
    sub: Seq<u8>,
    x: int,
    y: int,
    i: int,
)
    requires
        c.fits(w, h),
        canvas.len() == w * h * 4,
        0 <= x < w,
        0 <= y < h,
        0 <= i < 4,
    ensures
        ({
            let inside = c.x <= x < c.x + c.w && c.y <= y < c.y + c.h;
            let own = part(sub, c.w as int, x - c.x, y - c.y, i);
            let shown = c.shown(canvas, w, sub);
            let after = c.after(canvas, w, sub);
            &&& shown.len() == canvas.len()
            &&& after.len() == canvas.len()
            &&& !inside ==> part(shown, w, x, y, i) == part(canvas, w, x, y, i)
            &&& inside && c.source ==> part(shown, w, x, y, i) == own
            &&& inside && part(sub, c.w as int, x - c.x, y - c.y, 3) == 255 ==> part(shown, w, x, y, i)
                == own
            &&& !inside ==> part(after, w, x, y, i) == part(canvas, w, x, y, i)
            &&& inside && c.dispose == 1 ==> part(after, w, x, y, i) == 0
            &&& c.dispose == 2 ==> part(after, w, x, y, i) == part(canvas, w, x, y, i)
            &&& c.dispose != 1 && c.dispose != 2 ==> part(after, w, x, y, i) == part(shown, w, x, y, i)
        }),
{
    lemma_part(w, h, x, y, i);
}

/// A pixel that is laid over an opaque one is the mean of both, weighted by its alpha, and opaque;
/// over a transparent one it is itself.
pub proof fn law_frame_is_laid_over(dst: (u8, u8, u8, u8), src: (u8, u8, u8, u8))
    ensures
        dst.3 == 255 ==> png::blended(dst, src, false) == (
            ((src.0 * src.3 + dst.0 * (255 - src.3)) / 255) as u8,
            ((src.1 * src.3 + dst.1 * (255 - src.3)) / 255) as u8,
            ((src.2 * src.3 + dst.2 * (255 - src.3)) / 255) as u8,
            255u8,
        ),
        dst.3 == 0 && src.3 > 0 ==> png::blended(dst, src, false) == src,
        png::blended(dst, src, false).3 == src.3 + dst.3 * (255 - src.3) / 255,
{
    let (sa, da) = (src.3 as int, dst.3 as int);
    assert(0 <= da * (255 - sa) <= 255 * (255 - sa)) by (nonlinear_arith)
        requires
            0 <= da <= 255,
            0 <= sa <= 255,
    ;
    if da == 255 {
        lemma_over_opaque(dst.0, src.0, sa);
        lemma_over_opaque(dst.1, src.1, sa);
        lemma_over_opaque(dst.2, src.2, sa);
        assert(255 * (255 - sa) / 255 == 255 - sa);
    } else if da == 0 && sa > 0 {
        lemma_over_nothing(dst.0, src.0, sa);
        lemma_over_nothing(dst.1, src.1, sa);
        lemma_over_nothing(dst.2, src.2, sa);
        assert(0 * (255 - sa) / 255 == 0);
    }
    if sa == 255 {
        assert(da * 0 / 255 == 0);
    }
}

proof fn lemma_over_opaque(d: u8, s: u8, sa: int)
    requires
        0 <= sa <= 255,
    ensures
        png::over(d, s, sa, 255, 255) == (s * sa + d * (255 - sa)) / 255,
        0 <= (s * sa + d * (255 - sa)) / 255 <= 255,
        sa == 255 ==> (s * sa + d * (255 - sa)) / 255 == s,
{
    let (x, y) = (s as int, d as int);
    assert(y * 255 * (255 - sa) / 255 == y * (255 - sa)) by (nonlinear_arith);
    assert(0 <= x * sa + y * (255 - sa) <= 65_025) by (nonlinear_arith)
        requires
            0 <= x <= 255,
            0 <= y <= 255,
            0 <= sa <= 255,
    ;
    if sa == 255 {
        assert(y * 0 == 0);
    }
}

proof fn lemma_over_nothing(d: u8, s: u8, sa: int)
    requires
        0 < sa <= 255,
    ensures
        png::over(d, s, sa, 0, sa) == s,
{
    let (x, y) = (s as int, d as int);
    assert(y * 0 * (255 - sa) / 255 == 0) by (nonlinear_arith);
    assert(x * sa / sa == x) by (nonlinear_arith)
        requires
            sa > 0,
    ;
}

/// How long a frame of a PNG is shown: so many seconds of a number of parts, of a hundred where that
/// number is 0. It lies where the four numbers before say, and its last two bytes say what is left.
pub proof fn law_frame_control(b: Seq<u8>, at: int)
    requires
        0 <= at,
        at + 26 <= b.len(),
    ensures
        ({
            let c = png::control_at(b, at);
            let num = 256 * b[at + 20] + b[at + 21];
            let den = 256 * b[at + 22] + b[at + 23];
            let whole = if den == 0 {
                100
            } else {
                den
            };
            &&& c.delay * whole <= 1000 * num < (c.delay + 1) * whole
            &&& c.w == 0x100_0000 * b[at + 4] + 0x1_0000 * b[at + 5] + 0x100 * b[at + 6] + b[at + 7]
            &&& c.h == 0x100_0000 * b[at + 8] + 0x1_0000 * b[at + 9] + 0x100 * b[at + 10] + b[at + 11]
            &&& c.x == 0x100_0000 * b[at + 12] + 0x1_0000 * b[at + 13] + 0x100 * b[at + 14] + b[at + 15]
            &&& c.y == 0x100_0000 * b[at + 16] + 0x1_0000 * b[at + 17] + 0x100 * b[at + 18] + b[at + 19]
            &&& c.dispose == b[at + 24]
            &&& c.source <==> b[at + 25] == 0
        }),
{
    let num = bytes::be16(b, at + 20);
    let den = bytes::be16(b, at + 22);
    if den != 0 {
        vstd::arithmetic::div_mod::lemma_fundamental_div_mod(num * 1000, den);
        let q = num * 1000 / den;
        assert(q * den == den * q && (q + 1) * den == den * q + den) by (nonlinear_arith);
        assert(0 <= q <= num * 1000) by (nonlinear_arith)
            requires
                q == num * 1000 / den,
                den > 0,
                num >= 0,
        ;
    }
}

// ---- the pictures of a GIF ----

/// In which of the four passes a row of an interlaced picture comes: every eighth first, then those
/// halfway between, then the other even ones, then the odd ones.
pub open spec fn pass_of(y: int) -> int {
    if y % 8 == 0 {
        0
    } else if y % 8 == 4 {
        1
    } else if y % 4 == 2 {
        2
    } else {
        3
    }
}

/// The rows of an interlaced picture come pass after pass, and in each from the top down.
pub proof fn law_interlaced_rows_come_in_passes(r: int, s: int, height: int)
    requires
        0 <= r < s < height,
    ensures
        ({
            let (y, z) = (gif::interlaced(r, height), gif::interlaced(s, height));
            pass_of(y) < pass_of(z) || (pass_of(y) == pass_of(z) && y < z)
        }),
{
    gif::lemma_interlaced(r, height);
    gif::lemma_interlaced(s, height);
}

/// The row of the picture that is stored as the row `r`.
pub open spec fn row_of(p: Picture, r: int) -> int {
    if p.interlaced {
        gif::interlaced(r, p.height as int)
    } else {
        r
    }
}

/// Whether a pixel of a picture is painted: its color is not the transparent one, and the palette has
/// it.
pub open spec fn is_painted(p: Picture, i: int) -> bool {
    p.control.transparent != Some(p.indices[i]) && 3 * p.indices[i] + 3 <= p.palette.len()
}

proof fn lemma_place_of(p: Picture, cw: int, ch: int, i: int)
    requires
        p.fits(cw, ch),
        0 <= i < p.indices.len(),
    ensures
        ({
            let (w, h) = (p.width as int, p.height as int);
            let (x, y) = (p.left + i % w, p.top + row_of(p, i / w));
            &&& 0 <= i % w < w
            &&& 0 <= i / w < h
            &&& 0 <= row_of(p, i / w) < h
            &&& p.byte_of(cw, i) == 4 * (y * cw + x)
            &&& 0 <= y * cw + x < cw * ch
            &&& (y * cw + x) / cw == y
            &&& (y * cw + x) % cw == x
        }),
{
    let (w, h) = (p.width as int, p.height as int);
    render::lemma_row_col(i, w, h);
    if p.interlaced {
        gif::law_interlace_permutes(i / w, i / w, h);
    }
    render::lemma_place(p.left + i % w, p.top + row_of(p, i / w), cw, ch);
}

proof fn lemma_places_differ(p: Picture, cw: int, ch: int, i: int, j: int)
    requires
        p.fits(cw, ch),
        0 <= i < p.indices.len(),
        0 <= j < p.indices.len(),
        i != j,
    ensures
        p.byte_of(cw, i) != p.byte_of(cw, j),
{
    let w = p.width as int;
    lemma_place_of(p, cw, ch, i);
    lemma_place_of(p, cw, ch, j);
    render::lemma_row_col(i, w, p.height as int);
    render::lemma_row_col(j, w, p.height as int);
    if p.interlaced && i / w != j / w {
        gif::law_interlace_permutes(i / w, j / w, p.height as int);
    }
}

proof fn lemma_drawn(p: Picture, canvas: Seq<u8>, cw: int, ch: int, n: int, i: int, c: int)
    requires
        p.fits(cw, ch),
        canvas.len() == cw * ch * 4,
        0 <= n <= p.indices.len(),
        0 <= i < p.indices.len(),
        0 <= c < 4,
    ensures
        p.drawn(canvas, cw, n).len() == canvas.len(),
        p.drawn(canvas, cw, n)[p.byte_of(cw, i) + c] == (if i < n && is_painted(p, i) {
            if c == 3 {
                255
            } else {
                p.palette[3 * p.indices[i] + c]
            }
        } else {
            canvas[p.byte_of(cw, i) + c]
        }),
    decreases n,
{
    if n > 0 {
        lemma_drawn(p, canvas, cw, ch, n - 1, i, c);
        lemma_place_of(p, cw, ch, i);
        lemma_place_of(p, cw, ch, n - 1);
        if i != n - 1 {
            lemma_places_differ(p, cw, ch, i, n - 1);
        }
    }
}

proof fn lemma_drawn_beside(p: Picture, canvas: Seq<u8>, cw: int, ch: int, n: int, k: int)
    requires
        p.fits(cw, ch),
        canvas.len() == cw * ch * 4,
        0 <= n <= p.indices.len(),
        0 <= k < canvas.len(),
        !p.covers(cw, k),
    ensures
        p.drawn(canvas, cw, n).len() == canvas.len(),
        p.drawn(canvas, cw, n)[k] == canvas[k],
    decreases n,
{
    if n > 0 {
        lemma_drawn_beside(p, canvas, cw, ch, n - 1, k);
        lemma_place_of(p, cw, ch, n - 1);
        let at = p.byte_of(cw, n - 1);
        assert(at / 4 == at / 4 && (at + 1) / 4 == at / 4 && (at + 2) / 4 == at / 4 && (at + 3) / 4
            == at / 4);
        if at <= k < at + 4 {
            assert(k / 4 == at / 4);
        }
    }
}

/// The pixel in the column `x` of the stored row `r` of a picture is painted in its color where it
/// has one, opaque, as far from the corner of the canvas as the picture lies and the row says; where
/// it is transparent it leaves what was there.
pub proof fn law_picture_is_painted(p: Picture, canvas: Seq<u8>, cw: int, ch: int, x: int, r: int, c: int)
    requires
        p.fits(cw, ch),
        canvas.len() == cw * ch * 4,
        0 <= x < p.width,
        0 <= r < p.height,
        0 <= c < 4,
    ensures
        ({
            let i = r * p.width + x;
            let (px, py) = (p.left + x, p.top + row_of(p, r));
            let shown = p.shown(canvas, cw);
            &&& 0 <= i < p.indices.len()
            &&& shown.len() == canvas.len()
            &&& is_painted(p, i) && c == 3 ==> part(shown, cw, px, py, c) == 255
            &&& is_painted(p, i) && c < 3 ==> part(shown, cw, px, py, c) == p.palette[3 * p.indices[i] + c]
            &&& !is_painted(p, i) ==> part(shown, cw, px, py, c) == part(canvas, cw, px, py, c)
        }),
{
    render::lemma_place(x, r, p.width as int, p.height as int);
    let i = r * p.width + x;
    lemma_place_of(p, cw, ch, i);
    lemma_drawn(p, canvas, cw, ch, p.indices.len() as int, i, c);
}

/// Beside a picture the canvas stays as it is. When its time is over, a picture is cleared, or what
/// was there before comes back, or it stays.
pub proof fn law_picture_is_put_away(p: Picture, canvas: Seq<u8>, cw: int, ch: int, x: int, y: int, c: int)
    requires
        p.fits(cw, ch),
        canvas.len() == cw * ch * 4,
        0 <= x < cw,
        0 <= y < ch,
        0 <= c < 4,
    ensures
        ({
            let inside = p.left <= x < p.left + p.width && p.top <= y < p.top + p.height;
            let shown = p.shown(canvas, cw);
            let after = p.after(canvas, cw);
            &&& !inside ==> part(shown, cw, x, y, c) == part(canvas, cw, x, y, c)
            &&& !inside ==> part(after, cw, x, y, c) == part(canvas, cw, x, y, c)
            &&& inside && p.control.disposal == 2 ==> part(after, cw, x, y, c) == 0
            &&& p.control.disposal == 3 ==> part(after, cw, x, y, c) == part(canvas, cw, x, y, c)
            &&& p.control.disposal != 2 && p.control.disposal != 3 ==> part(after, cw, x, y, c) == part(
                shown,
                cw,
                x,
                y,
                c,
            )
        }),
{
    let k = 4 * (y * cw + x) + c;
    lemma_part(cw, ch, x, y, c);
    let inside = p.left <= x < p.left + p.width && p.top <= y < p.top + p.height;
    if !inside {
        lemma_drawn_beside(p, canvas, cw, ch, p.indices.len() as int, k);
    } else {
        assert(0 < p.indices.len()) by {
            render::lemma_place(0, 0, p.width as int, p.height as int);
        }
        lemma_drawn(p, canvas, cw, ch, p.indices.len() as int, 0, 0);
    }
}

/// How pieces of data are written: each with its length in front, and an empty one behind the last.
pub open spec fn chained(pieces: Seq<Seq<u8>>) -> Seq<u8>
    decreases pieces.len(),
{
    if pieces.len() == 0 {
        seq![0u8]
    } else {
        seq![pieces[0].len() as u8] + pieces[0] + chained(pieces.drop_first())
    }
}

/// The data of pieces, one after the other.
pub open spec fn together(pieces: Seq<Seq<u8>>) -> Seq<u8>
    decreases pieces.len(),
{
    if pieces.len() == 0 {
        Seq::empty()
    } else {
        pieces[0] + together(pieces.drop_first())
    }
}

/// Data that is written in pieces is read back in one.
pub proof fn law_pieces_are_joined(b: Seq<u8>, pos: int, pieces: Seq<Seq<u8>>)
    requires
        0 <= pos,
        pos + chained(pieces).len() <= b.len(),
        b.subrange(pos, pos + chained(pieces).len()) == chained(pieces),
        forall|i: int| 0 <= i < pieces.len() ==> 1 <= (#[trigger] pieces[i]).len() <= 255,
    ensures
        gif::sub_data(b, pos) == Some((together(pieces), pos + chained(pieces).len())),
        gif::sub_end(b, pos) == Some(pos + chained(pieces).len()),
    decreases pieces.len(),
{
    let all = chained(pieces);
    assert(b.subrange(pos, pos + all.len())[0] == b[pos]);
    if pieces.len() > 0 {
        let first = pieces[0];
        let rest = pieces.drop_first();
        let n = first.len() as int;
        let stop = pos + 1 + n;
        assert(all[0] == n);
        assert(b.subrange(pos + 1, stop) =~= first) by {
            assert forall|i: int| 0 <= i < n implies b[pos + 1 + i] == first[i] by {
                assert(b.subrange(pos, pos + all.len())[1 + i] == all[1 + i]);
            }
        }
        let tail = chained(rest);
        assert(b.subrange(stop, stop + tail.len()) =~= tail) by {
            assert forall|i: int| 0 <= i < tail.len() implies b[stop + i] == tail[i] by {
                assert(b.subrange(pos, pos + all.len())[1 + n + i] == all[1 + n + i]);
            }
        }
        assert forall|i: int| 0 <= i < rest.len() implies 1 <= (#[trigger] rest[i]).len() <= 255 by {
            assert(rest[i] == pieces[i + 1]);
        }
        law_pieces_are_joined(b, stop, rest);
    } else {
        assert(all[0] == 0);
    }
}

/// What a control block says: how many hundredths of a second the picture is shown, a tenth of a
/// second where it says none; what happens to it then; and which color is transparent, if any is.
pub proof fn law_picture_control(b: Seq<u8>, pos: int)
    requires
        0 <= pos,
    ensures
        gif::control_at(b, pos) is Some <==> pos + 8 <= b.len() && b[pos + 2] >= 4,
        gif::control_at(b, pos) matches Some(c) ==> {
            let hundredths = 256 * b[pos + 5] + b[pos + 4];
            &&& c.delay == 10 * (if hundredths == 0 {
                10
            } else {
                hundredths
            })
            &&& c.disposal == b[pos + 3] % 8
            &&& c.transparent is Some <==> (b[pos + 3] / 16) % 2 == 1
            &&& c.transparent matches Some(v) ==> v == b[pos + 6]
        },
{
    let p: u8 = b[pos + 3];
    assert(p & 7 == p % 8 && (p & 0x10 != 0 <==> (p / 16) % 2 == 1)) by (bit_vector);
}

/// A color table has three bytes for each of 2, 4, 8 and so on up to 256 colors.
pub proof fn law_color_tables(packed: u8)
    ensures
        gif::table_size(packed) == (match packed % 8 {
            0 => 6int,
            1 => 12,
            2 => 24,
            3 => 48,
            4 => 96,
            5 => 192,
            6 => 384,
            _ => 768,
        }),
{
    assert(packed & 7 == packed % 8) by (bit_vector);
    vstd::arithmetic::power2::lemma2_to64();
}

// ---- the rows and the picture of a PNG ----

/// How many bits a pixel has: gray and palette one sample, gray with alpha two, and colors three, or
/// four with alpha.
pub open spec fn pixel_bits(l: Layout) -> int {
    if l.color == 0 || l.color == 3 {
        l.depth as int
    } else if l.color == 4 {
        2 * l.depth
    } else if l.color == 2 {
        3 * l.depth
    } else {
        4 * l.depth
    }
}

/// A row takes as many whole bytes as its samples need, and a filter looks back by the bytes of a
/// pixel, or by one where a pixel has less.
pub proof fn law_row_sizes(l: Layout, w: int)
    requires
        1 <= w,
        png::channels(l.color) is Some,
        png::good_depth(l.color, l.depth),
    ensures
        ({
            let pixel = pixel_bits(l);
            &&& 8 * (l.row_bytes(w) - 1) < w * pixel <= 8 * l.row_bytes(w)
            &&& pixel >= 8 ==> 8 * l.bpp() == pixel
            &&& pixel < 8 ==> l.bpp() == 1
        }),
{
    let (c, d, pixel) = (l.ch(), l.depth as int, pixel_bits(l));
    assert(c * d == pixel) by (nonlinear_arith)
        requires
            c == 1 && pixel == d || c == 2 && pixel == 2 * d || c == 3 && pixel == 3 * d || c == 4 && pixel
                == 4 * d,
    ;
    assert(w * c * d == w * pixel) by (nonlinear_arith)
        requires
            c * d == pixel,
    ;
}

/// Whether a row is written at its place: the number of its filter, and what the filter makes of it
/// with the row above, of which there is none above the first.
pub open spec fn row_is_written(l: Layout, raw: Seq<u8>, w: int, rows: Seq<Seq<u8>>, y: int) -> bool {
    let size = l.row_bytes(w);
    let at = y * (size + 1);
    let above = if y == 0 {
        Seq::<u8>::empty()
    } else {
        rows[y - 1]
    };
    &&& rows[y].len() == size
    &&& raw[at] <= 4
    &&& is_filtered(raw[at], raw.subrange(at + 1, at + 1 + size), rows[y], above, l.bpp())
}

/// The rows of a picture are read from what the filters wrote.
pub proof fn law_rows_are_read(l: Layout, raw: Seq<u8>, w: int, rows: Seq<Seq<u8>>, n: int)
    requires
        0 <= n <= rows.len(),
        l.bpp() >= 1,
        forall|y: int| 0 <= y < rows.len() ==> #[trigger] row_is_written(l, raw, w, rows, y),
    ensures
        l.rows(raw, w, n) == rows.take(n),
    decreases n,
{
    if n == 0 {
        assert(rows.take(0) =~= Seq::<Seq<u8>>::empty());
    } else {
        law_rows_are_read(l, raw, w, rows, n - 1);
        let y = n - 1;
        assert(row_is_written(l, raw, w, rows, y));
        let size = l.row_bytes(w);
        let at = y * (size + 1);
        let row = rows[y];
        let above = rows.take(n - 1);
        let prev = if y == 0 {
            Seq::<u8>::empty()
        } else {
            rows[y - 1]
        };
        if y > 0 {
            assert(above[n - 2] == rows[y - 1]);
        }
        assert(at + (size + 1) == at + 1 + size);
        law_filters_are_undone(raw[at], raw.subrange(at + 1, at + 1 + size), row, prev, l.bpp());
        assert(rows.take(n) =~= above.push(row));
    }
}

/// The bytes of a picture are its rows from the top down, the pixels of each from the left to the
/// right, and of each its red, green, blue and alpha.
pub proof fn law_picture_bytes(l: Layout, z: Seq<u8>, w: int, h: int, x: int, y: int)
    requires
        0 <= x < w,
        0 <= y < h,
    ensures
        ({
            let rows = l.rows(l.raw(z, w, h)->0, w, h);
            let p = l.pixel(rows[y], x)->0;
            let b = l.picture(z, w, h);
            &&& part(b, w, x, y, 0) == p.0
            &&& part(b, w, x, y, 1) == p.1
            &&& part(b, w, x, y, 2) == p.2
            &&& part(b, w, x, y, 3) == p.3
        }),
{
    lemma_part(w, h, x, y, 0);
    lemma_part(w, h, x, y, 1);
    lemma_part(w, h, x, y, 2);
    lemma_part(w, h, x, y, 3);
}

/// A picture lies where its block says, in four numbers of two bytes each, low byte first. A digit of
/// the next byte says whether it has colors of its own, which follow, and another whether its rows are
/// interlaced; then come the size of the codes and the data in pieces.
pub proof fn law_picture_block(b: Seq<u8>, pos: int, global: Seq<u8>, cw: int, ch: int, control: gif::Control)
    requires
        0 <= pos,
    ensures
        gif::picture_at(b, pos, global, cw, ch, control) matches Some((p, end)) ==> {
            let own = b[pos + 9] / 128 == 1;
            let at = if own {
                pos + 10 + gif::table_size(b[pos + 9])
            } else {
                pos + 10
            };
            &&& p.left == b[pos + 1] + 256 * b[pos + 2]
            &&& p.top == b[pos + 3] + 256 * b[pos + 4]
            &&& p.width == b[pos + 5] + 256 * b[pos + 6]
            &&& p.height == b[pos + 7] + 256 * b[pos + 8]
            &&& p.interlaced <==> (b[pos + 9] / 64) % 2 == 1
            &&& p.palette == (if own {
                b.subrange(pos + 10, at)
            } else {
                global
            })
            &&& p.control == control
            &&& p.left + p.width <= cw && p.top + p.height <= ch && 0 < p.width && 0 < p.height
            &&& (gif::sub_data(b, at + 1) matches Some((data, stop)) && stop == end && gif::lzw_colors(
                data,
                b[at],
                (p.width * p.height) as nat,
            ) == Some(p.indices))
        },
{
    let k: u8 = b[pos + 9];
    assert((k & 0x80 != 0 <==> k / 128 == 1) && (k & 0x40 != 0 <==> (k / 64) % 2 == 1)) by (bit_vector);
}

/// The chunks of a PNG follow each other: each with its length and its kind in front and four bytes
/// behind; one that runs over the end of the file makes all of it void.
pub proof fn law_chunks_follow(b: Seq<u8>, at: int, s: png::Scan, n: int)
    requires
        0 <= at,
        at + 12 <= b.len(),
        n == 0x100_0000 * b[at] + 0x1_0000 * b[at + 1] + 0x100 * b[at + 2] + b[at + 3],
    ensures
        at + 12 + n > b.len() ==> png::scanned(b, at, s) is None,
        at + 12 + n <= b.len() ==> {
            let kind = (0x100_0000 * b[at + 4] + 0x1_0000 * b[at + 5] + 0x100 * b[at + 6] + b[at + 7]) as u32;
            png::scanned(b, at, s) == (match s.with_chunk(b, kind, at + 8, at + 8 + n) {
                Some(t) => png::scanned(b, at + 12 + n, t),
                None => None,
            })
        },
{
}

/// What the chunks of a PNG bring: the data of the picture in one run, the colors and their alphas,
/// and for each frame its control and then its data, without the four bytes of its number.
pub proof fn law_chunks_bring(s: png::Scan, b: Seq<u8>, lo: int, hi: int)
    requires
        0 <= lo <= hi <= b.len(),
    ensures
        ({
            let d = b.subrange(lo, hi);
            &&& s.parts.len() <= 1 ==> (s.with_chunk(b, png::IDAT, lo, hi) matches Some(t) && t.idat
                == s.idat + d && t.parts == s.parts)
            &&& s.parts.len() == 0 ==> (s.with_chunk(b, png::PLTE, lo, hi) matches Some(t) && t.palette
                == d && t.trns == s.trns && t.idat == s.idat)
            &&& s.parts.len() == 0 ==> (s.with_chunk(b, png::TRNS, lo, hi) matches Some(t) && t.trns == d
                && t.palette == s.palette && t.idat == s.idat)
            &&& hi - lo == 26 && s.parts.len() < png::MAX_FRAMES ==> (s.with_chunk(b, png::FCTL, lo, hi)
                matches Some(t) && t.parts.len() == s.parts.len() + 1 && t.parts.last().ctl
                == png::control_at(b, lo) && t.parts.last().data.len() == 0 && t.parts.drop_last()
                == s.parts)
            &&& hi - lo >= 4 && s.parts.len() > 0 ==> (s.with_chunk(b, png::FDAT, lo, hi) matches Some(t)
                && t.parts.len() == s.parts.len() && t.parts.last().data == s.parts.last().data
                + b.subrange(lo + 4, hi) && t.parts.last().ctl == s.parts.last().ctl
                && t.parts.drop_last() == s.parts.drop_last())
        }),
{
    if hi - lo == 26 && s.parts.len() < png::MAX_FRAMES {
        let t = s.with_chunk(b, png::FCTL, lo, hi)->0;
        assert(t.parts.drop_last() =~= s.parts);
    }
    if hi - lo >= 4 && s.parts.len() > 0 {
        let t = s.with_chunk(b, png::FDAT, lo, hi)->0;
        assert(t.parts.drop_last() =~= s.parts.drop_last());
    }
}

/// The blocks of a GIF follow each other until the one that ends them. A control holds for the next
/// picture and no other, and further blocks are passed over.
pub proof fn law_blocks_follow(
    b: Seq<u8>,
    pos: int,
    global: Seq<u8>,
    cw: int,
    ch: int,
    control: gif::Control,
    done: Seq<Picture>,
)
    requires
        0 <= pos < b.len(),
    ensures
        b[pos] == 0x3b ==> gif::pictures(b, pos, global, cw, ch, control, done) == Some(done),
        b[pos] == 0x2c && done.len() < gif::MAX_FRAMES ==> gif::pictures(
            b,
            pos,
            global,
            cw,
            ch,
            control,
            done,
        ) == (match gif::picture_at(b, pos, global, cw, ch, control) {
            None => None,
            Some((pic, end)) => gif::pictures(
                b,
                end,
                global,
                cw,
                ch,
                gif::Control { delay: 0, disposal: 0, transparent: None },
                done.push(pic),
            ),
        }),
        b[pos] == 0x21 && pos + 1 < b.len() && b[pos + 1] == 0xf9 ==> (gif::control_at(b, pos) matches Some(
            c,
        ) ==> (gif::sub_end(b, pos + 2) matches Some(end) ==> gif::pictures(
            b,
            pos,
            global,
            cw,
            ch,
            control,
            done,
        ) == gif::pictures(b, end, global, cw, ch, c, done))),
        b[pos] == 0x21 && pos + 1 < b.len() && b[pos + 1] != 0xf9 ==> (gif::sub_end(b, pos + 2) matches Some(
            end,
        ) ==> gif::pictures(b, pos, global, cw, ch, control, done) == gif::pictures(
            b,
            end,
            global,
            cw,
            ch,
            control,
            done,
        )),
{
}

} // verus!
