//! What the effects draw, pixel by pixel, and how the waves move.
use crate::deflate;
use crate::effect;
use crate::effect::{Effect, Row, Sheet};
use crate::mask;
use crate::render;
use crate::sine;
use crate::single;
use crate::single::ONE;
use crate::text::{Glyph, GlyphBody};
use vstd::arithmetic::power2;
use vstd::prelude::*;

verus! {

// ---- layers ----

/// The larger of a number and zero.
pub open spec fn positive(n: int) -> int {
    if n > 0 {
        n
    } else {
        0
    }
}

/// The smaller of a number and 255.
pub open spec fn upto_255(n: int) -> int {
    if n < 255 {
        n
    } else {
        255
    }
}

/// What a color that covers `a` of 255 brings to one of the components of a pixel: the alpha itself,
/// or its share of the component.
pub open spec fn share_of(color: u32, shift: u32, a: int) -> int {
    if shift == 24 {
        a
    } else {
        render::channel(color, shift) * a / 255
    }
}

/// A component once a color is laid over it: what it covers of 255 hides as much of what was there.
pub open spec fn laid_over(before: int, color: u32, shift: u32, a: int) -> int {
    share_of(color, shift, a) + before * (255 - a) / 255
}

/// A component once a color is added to it, up to 255.
pub open spec fn added_to(before: int, color: u32, shift: u32, a: int) -> int {
    upto_255(share_of(color, shift, a) + before)
}

/// Whether this is the place of a component in a pixel.
pub open spec fn is_component(shift: u32) -> bool {
    shift == 0 || shift == 8 || shift == 16 || shift == 24
}

proof fn lemma_channel(c: u32, shift: u32)
    ensures
        0 <= render::channel(c, shift) <= 255,
{
    assert((c >> shift) & 0xff <= 255) by (bit_vector);
}

proof fn lemma_share(color: u32, shift: u32, a: int)
    requires
        0 <= a <= 255,
    ensures
        0 <= share_of(color, shift, a) <= a,
{
    lemma_channel(color, shift);
    let c = render::channel(color, shift);
    assert(0 <= c * a <= 255 * a) by (nonlinear_arith)
        requires
            0 <= c <= 255,
            0 <= a,
    ;
}

proof fn lemma_premultiplied(color: u32, a: u8, shift: u32)
    requires
        is_component(shift),
    ensures
        0 <= render::premultiplied(color, a) <= u32::MAX,
        render::channel(render::premultiplied(color, a) as u32, shift) == share_of(color, shift, a as int),
{
    lemma_share(color, 16, a as int);
    lemma_share(color, 8, a as int);
    lemma_share(color, 0, a as int);
    let alpha = a as u32;
    let r = share_of(color, 16, a as int) as u32;
    let g = share_of(color, 8, a as int) as u32;
    let b = share_of(color, 0, a as int) as u32;
    let v = render::premultiplied(color, a) as u32;
    assert(v == alpha * 0x100_0000 + r * 0x1_0000 + g * 0x100 + b);
    assert((v >> 24) & 0xff == alpha && (v >> 16) & 0xff == r && (v >> 8) & 0xff == g && (v >> 0) & 0xff
        == b) by (bit_vector)
        requires
            alpha <= 255,
            r <= 255,
            g <= 255,
            b <= 255,
            v == alpha * 0x100_0000 + r * 0x1_0000 + g * 0x100 + b,
    ;
}

/// A color that is laid over a pixel, or added to it, changes each component on its own.
pub proof fn law_layer(dst: u32, color: u32, a: u8, shift: u32)
    requires
        is_component(shift),
    ensures
        render::channel(
            render::blended(dst, render::premultiplied(color, a) as u32, false),
            shift,
        ) == laid_over(render::channel(dst, shift), color, shift, a as int),
        render::channel(
            render::blended(dst, render::premultiplied(color, a) as u32, true),
            shift,
        ) == added_to(render::channel(dst, shift), color, shift, a as int),
{
    let src = render::premultiplied(color, a) as u32;
    lemma_premultiplied(color, a, 24);
    lemma_premultiplied(color, a, 16);
    lemma_premultiplied(color, a, 8);
    lemma_premultiplied(color, a, 0);
    lemma_share(color, 16, a as int);
    lemma_share(color, 8, a as int);
    lemma_share(color, 0, a as int);
    lemma_channel(dst, shift);
    let d = render::channel(dst, shift);
    if a == 0 {
        assert(d * 255 / 255 == d);
    } else if a == 255 {
        assert(d * 0 / 255 == 0);
        render::law_blend_is_per_channel(dst, src, true, shift);
    } else {
        render::law_blend_is_per_channel(dst, src, false, shift);
        render::law_blend_is_per_channel(dst, src, true, shift);
    }
}

/// Whether a coverage is that of the canvas and of the margin around it.
pub open spec fn fits(sheet: Sheet, m: mask::Cover) -> bool {
    &&& 0 <= sheet.pad
    &&& m.w == sheet.w + 2 * sheet.pad
    &&& m.h == sheet.h + 2 * sheet.pad
    &&& m.px.len() == m.w * m.h
}

/// Whether this is a pixel of the canvas, which has a color for each column.
pub open spec fn on_canvas(sheet: Sheet, buf: Seq<u32>, colors: Seq<u32>, x: int, y: int) -> bool {
    &&& 0 <= x < sheet.w
    &&& 0 <= y < sheet.h
    &&& buf.len() == sheet.w * sheet.h
    &&& colors.len() == sheet.w
}

/// A component of a pixel of a canvas.
pub open spec fn component(sheet: Sheet, buf: Seq<u32>, x: int, y: int, shift: u32) -> int {
    render::channel(buf[y * sheet.w + x], shift)
}

proof fn lemma_laid(
    sheet: Sheet,
    buf: Seq<u32>,
    m: mask::Cover,
    colors: Seq<u32>,
    gain: int,
    x: int,
    y: int,
    shift: u32,
)
    requires
        on_canvas(sheet, buf, colors, x, y),
        is_component(shift),
        0 <= gain <= 255,
    ensures
        sheet.over(buf, m, colors, gain).len() == buf.len(),
        sheet.plus(buf, m, colors, gain).len() == buf.len(),
        component(sheet, sheet.over(buf, m, colors, gain), x, y, shift) == laid_over(
            component(sheet, buf, x, y, shift),
            colors[x],
            shift,
            m.cell(x + sheet.pad, y + sheet.pad) * gain / 255,
        ),
        component(sheet, sheet.plus(buf, m, colors, gain), x, y, shift) == added_to(
            component(sheet, buf, x, y, shift),
            colors[x],
            shift,
            m.cell(x + sheet.pad, y + sheet.pad) * gain / 255,
        ),
{
    render::lemma_place(x, y, sheet.w as int, sheet.h as int);
    let v = m.cell(x + sheet.pad, y + sheet.pad);
    assert(0 <= v * gain <= 65_025) by (nonlinear_arith)
        requires
            0 <= v <= 255,
            0 <= gain <= 255,
    ;
    law_layer(buf[y * sheet.w + x], colors[x], (v * gain / 255) as u8, shift);
}

// ---- coverages ----

proof fn lemma_new_cell(w: int, h: int, f: spec_fn(int, int) -> u8, x: int, y: int)
    requires
        0 <= x < w,
        0 <= y < h,
    ensures
        mask::Cover::new(w, h, f).cell(x, y) == f(x, y),
{
    render::lemma_place(x, y, w, h);
}

proof fn lemma_blur_size(m: mask::Cover, r: int)
    requires
        m.w >= 0,
        m.h >= 0,
        m.px.len() == m.w * m.h,
    ensures
        m.blur(r).w == m.w,
        m.blur(r).h == m.h,
        m.blur(r).px.len() == m.w * m.h,
{
    assert(m.w * m.h >= 0) by (nonlinear_arith)
        requires
            m.w >= 0,
            m.h >= 0,
    ;
}

/// How much more a pixel is covered than the one that is `(dx, dy)` before it, `num / 255` as strong.
pub open spec fn slope(m: mask::Cover, dx: int, dy: int, num: int, x: int, y: int) -> int {
    positive(m.cell(x, y) - m.cell(x - dx, y - dy)) * num / 255
}

proof fn lemma_slope(m: mask::Cover, dx: int, dy: int, num: int, x: int, y: int)
    requires
        0 <= x < m.w,
        0 <= y < m.h,
        m.px.len() == m.w * m.h,
        0 <= num <= 255,
    ensures
        m.above(m.shift(dx, dy)).scale(num, 255).cell(x, y) == slope(m, dx, dy, num, x, y),
        0 <= slope(m, dx, dy, num, x, y) <= 255,
{
    render::lemma_place(x, y, m.w, m.h);
    let v = positive(m.cell(x, y) - m.cell(x - dx, y - dy));
    assert(0 <= v * num <= 65_025) by (nonlinear_arith)
        requires
            0 <= v <= 255,
            0 <= num <= 255,
    ;
}

// ---- liquid ----

/// A part of a number, rounded toward zero.
pub open spec fn toward_zero(n: int, d: int) -> int {
    if n < 0 {
        -((-n) / d)
    } else {
        n / d
    }
}

/// How far a wave reaches at a place of 256, `s` at its crest.
pub open spec fn reach(at: int, s: int) -> int {
    toward_zero(sine::value(at % 256) * s, 1024)
}

/// What is left of a coverage where what is faint fades out and the rest is eight times as strong.
pub open spec fn sharpened(v: int) -> int {
    upto_255(positive(v - 24) * 8)
}

/// How many of 256 steps the waves have gone after so many milliseconds: all of them in 2513.
pub open spec fn steps_gone(phase_ms: int) -> int {
    phase_ms * 256 / 2513
}

proof fn lemma_same_place(n: int, at: int)
    requires
        (n - at) % 256 == 0,
    ensures
        n % 256 == at % 256,
        (n + 62) % 256 == (at + 62) % 256,
{
}

proof fn lemma_wave_at(high: mask::Cover, t: int, s: int, x: int, y: int, a: int, b: int, c: int)
    requires
        (2 * x + t - a) % 256 == 0,
        (x / 2 + y * 222 / 256 + t + 85 - b) % 256 == 0,
        (-(x / 2) + y * 222 / 256 + t + 170 - c) % 256 == 0,
    ensures
        effect::wave_at(high, t, s, x, y) == sharpened(
            high.near(
                x + toward_zero(reach(a, s) + reach(b, s), 2),
                y + toward_zero(reach(a + 62, s) + reach(b, s) - reach(c, s), 2),
            ) as int,
        ),
{
    lemma_same_place(2 * x + t, a);
    lemma_same_place(x / 2 + y * 222 / 256 + t + 85, b);
    lemma_same_place(-(x / 2) + y * 222 / 256 + t + 170, c);
    assert(effect::wave(2 * x + t, s) == reach(a, s));
    assert(effect::wave(2 * x + t + 62, s) == reach(a + 62, s));
}

/// A layer, and white where the coverage rises to the right.
proof fn lemma_liquid_layers(
    sheet: Sheet,
    buf: Seq<u32>,
    high: mask::Cover,
    bent: mask::Cover,
    colors: Seq<u32>,
    x: int,
    y: int,
    shift: u32,
)
    requires
        fits(sheet, high),
        on_canvas(sheet, buf, colors, x, y),
        is_component(shift),
    ensures
        component(
            sheet,
            sheet.plus(
                sheet.over(buf, bent, colors, 255),
                high.above(high.shift(1, 0)).scale(90, 255),
                effect::flat(0xff_ffff, sheet.w),
                255,
            ),
            x,
            y,
            shift,
        ) == added_to(
            laid_over(
                component(sheet, buf, x, y, shift),
                colors[x],
                shift,
                bent.cell(x + sheet.pad, y + sheet.pad) as int,
            ),
            0xff_ffff,
            shift,
            slope(high, 1, 0, 90, x + sheet.pad, y + sheet.pad),
        ),
{
    let body = sheet.over(buf, bent, colors, 255);
    let light = high.above(high.shift(1, 0)).scale(90, 255);
    let white = effect::flat(0xff_ffff, sheet.w);
    lemma_laid(sheet, buf, bent, colors, 255, x, y, shift);
    lemma_laid(sheet, body, light, white, 255, x, y, shift);
    lemma_slope(high, 1, 0, 90, x + sheet.pad, y + sheet.pad);
}

/// The pixel `(x, y)` of liquid text. Three waves go through it: the first has two steps to each
/// column; the second and the third have half a step to each column, forth and back, and 222 to each
/// 256 lines, and are a third of a circle apart. `a`, `b` and `c` are where they stand there, all as
/// far on as the time has gone. The first and the second move the coverage sideways; the first, about
/// a quarter on, the second and the third move it up and down, each half as far as they reach. Over
/// it comes white where the coverage rises to the right.
pub proof fn law_liquid_pixel(
    sheet: Sheet,
    buf: Seq<u32>,
    m: mask::Cover,
    colors: Seq<u32>,
    shadow: u32,
    s: int,
    phase_ms: int,
    x: int,
    y: int,
    shift: u32,
    a: int,
    b: int,
    c: int,
)
    requires
        fits(sheet, m),
        on_canvas(sheet, buf, colors, x, y),
        is_component(shift),
        (2 * (x + sheet.pad) + steps_gone(phase_ms) - a) % 256 == 0,
        ((x + sheet.pad) / 2 + (y + sheet.pad) * 222 / 256 + steps_gone(phase_ms) + 85 - b) % 256 == 0,
        (-((x + sheet.pad) / 2) + (y + sheet.pad) * 222 / 256 + steps_gone(phase_ms) + 170 - c) % 256 == 0,
    ensures
        ({
            let high = m.blur(s);
            let (px, py) = (x + sheet.pad, y + sheet.pad);
            let moved = high.near(
                px + toward_zero(reach(a, s) + reach(b, s), 2),
                py + toward_zero(reach(a + 62, s) + reach(b, s) - reach(c, s), 2),
            );
            component(
                sheet,
                sheet.with_effect(buf, m, colors, shadow, s, Effect::Liquid, phase_ms),
                x,
                y,
                shift,
            ) == added_to(
                laid_over(component(sheet, buf, x, y, shift), colors[x], shift, sharpened(moved as int)),
                0xff_ffff,
                shift,
                slope(high, 1, 0, 90, px, py),
            )
        }),
{
    let high = m.blur(s);
    lemma_blur_size(m, s);
    let t = steps_gone(phase_ms);
    let (px, py) = (x + sheet.pad, y + sheet.pad);
    let bent = effect::waves(high, t, s);
    lemma_liquid_layers(sheet, buf, high, bent, colors, x, y, shift);
    lemma_new_cell(high.w, high.h, |x: int, y: int| effect::wave_at(high, t, s, x, y), px, py);
    lemma_wave_at(high, t, s, px, py, a, b, c);
    assert(sheet.with_effect(buf, m, colors, shadow, s, Effect::Liquid, phase_ms) == sheet.liquid(
        buf,
        m,
        colors,
        s,
        phase_ms,
    )) by {
        reveal(Sheet::with_effect);
    }
}

/// Liquid text is the same again when the waves have gone all their steps, and so after 2513
/// milliseconds.
pub proof fn law_liquid_comes_back(
    sheet: Sheet,
    buf: Seq<u32>,
    m: mask::Cover,
    colors: Seq<u32>,
    shadow: u32,
    s: int,
    p: int,
    q: int,
)
    requires
        (steps_gone(p) - steps_gone(q)) % 256 == 0,
    ensures
        sheet.with_effect(buf, m, colors, shadow, s, Effect::Liquid, p) == sheet.with_effect(
            buf,
            m,
            colors,
            shadow,
            s,
            Effect::Liquid,
            q,
        ),
        steps_gone(p + 2513) == steps_gone(p) + 256,
{
    reveal(Sheet::with_effect);
    let high = m.blur(s);
    let (t, u) = (steps_gone(p), steps_gone(q));
    assert forall|x: int, y: int| #[trigger]
        effect::wave_at(high, t, s, x, y) == effect::wave_at(high, u, s, x, y) by {
        lemma_wave_at(
            high,
            t,
            s,
            x,
            y,
            2 * x + u,
            x / 2 + y * 222 / 256 + u + 85,
            -(x / 2) + y * 222 / 256 + u + 170,
        );
        lemma_wave_at(
            high,
            u,
            s,
            x,
            y,
            2 * x + u,
            x / 2 + y * 222 / 256 + u + 85,
            -(x / 2) + y * 222 / 256 + u + 170,
        );
    }
    assert(effect::waves(high, t, s).px =~= effect::waves(high, u, s).px);
}

// ---- blurred edges ----

/// All of the columns from `c` on covered, and none before.
pub open spec fn right_of(w: int, h: int, c: int) -> mask::Cover {
    mask::Cover::new(
        w,
        h,
        |x: int, y: int|
            if x >= c {
                255u8
            } else {
                0
            },
    )
}

/// All of the lines from `c` on covered, and none before.
pub open spec fn below(w: int, h: int, c: int) -> mask::Cover {
    mask::Cover::new(
        w,
        h,
        |x: int, y: int|
            if y >= c {
                255u8
            } else {
                0
            },
    )
}

/// How much of the `2 * r + 1` pixels around `x` is from `c` on, of 255.
pub open spec fn ramp(r: int, c: int, x: int) -> int {
    255 * render::limited(x + r + 1 - c, 0, 2 * r + 1) / (2 * r + 1)
}

proof fn lemma_ramp(r: int, c: int, x: int)
    requires
        r >= 0,
    ensures
        0 <= ramp(r, c, x) <= 255,
{
    let k = render::limited(x + r + 1 - c, 0, 2 * r + 1);
    assert(0 <= 255 * k / (2 * r + 1) <= 255) by (nonlinear_arith)
        requires
            0 <= k <= 2 * r + 1,
            r >= 0,
    ;
}

proof fn lemma_sum_across_edge(m: mask::Cover, c: int, x: int, y: int, n: int)
    requires
        0 <= n,
        forall|u: int, v: int| #[trigger]
            m.near(u, v) == (if u >= c {
                255u8
            } else {
                0
            }),
    ensures
        m.run_sum(x, y, 1, 0, n) == 255 * render::limited(x + n - c, 0, n),
    decreases n,
{
    if n > 0 {
        lemma_sum_across_edge(m, c, x, y, n - 1);
        assert((n - 1) * 1 == n - 1 && (n - 1) * 0 == 0);
        assert(m.near(x + (n - 1), y + 0) == (if x + n - 1 >= c {
            255u8
        } else {
            0
        }));
    }
}

proof fn lemma_sum_down_edge(m: mask::Cover, c: int, x: int, y: int, n: int)
    requires
        0 <= n,
        forall|u: int, v: int| #[trigger]
            m.near(u, v) == (if v >= c {
                255u8
            } else {
                0
            }),
    ensures
        m.run_sum(x, y, 0, 1, n) == 255 * render::limited(y + n - c, 0, n),
    decreases n,
{
    if n > 0 {
        lemma_sum_down_edge(m, c, x, y, n - 1);
        assert((n - 1) * 1 == n - 1 && (n - 1) * 0 == 0);
        assert(m.near(x + 0, y + (n - 1)) == (if y + n - 1 >= c {
            255u8
        } else {
            0
        }));
    }
}

proof fn lemma_sum_along(m: mask::Cover, x: int, y: int, dx: int, dy: int, n: int, v: int)
    requires
        0 <= n,
        forall|i: int| 0 <= i < n ==> m.near(#[trigger] (x + i * dx), y + i * dy) == v,
    ensures
        m.run_sum(x, y, dx, dy, n) == n * v,
    decreases n,
{
    if n > 0 {
        lemma_sum_along(m, x, y, dx, dy, n - 1, v);
        let i = n - 1;
        assert(m.near(x + i * dx, y + i * dy) == v);
        assert(n * v == (n - 1) * v + v) by (nonlinear_arith);
    } else {
        assert(0 * v == 0);
    }
}

/// A sharp edge blurs to a ramp: as much of each pixel is covered as of those around it, `r` to each
/// side. It is the same in each line.
pub proof fn law_blurred_edge_is_a_ramp(w: int, h: int, c: int, r: int, x: int, y: int)
    requires
        0 < c < w,
        0 < h,
        1 <= r,
        0 <= x < w,
    ensures
        right_of(w, h, c).blur(r).near(x, y) == ramp(r, c, x),
{
    let m = right_of(w, h, c);
    let rows = m.row_means(r);
    let n = 2 * r + 1;
    assert forall|u: int, v: int| #[trigger]
        m.near(u, v) == (if u >= c {
            255u8
        } else {
            0
        }) by {
        render::lemma_place(
            render::limited(u, 0, w - 1),
            render::limited(v, 0, h - 1),
            w,
            h,
        );
    }
    lemma_ramp(r, c, x);
    assert forall|v: int| #[trigger] rows.near(x, v) == ramp(r, c, x) by {
        let at = render::limited(v, 0, h - 1);
        render::lemma_place(x, at, w, h);
        lemma_sum_across_edge(m, c, x - r, at, n);
    }
    let at = render::limited(y, 0, h - 1);
    render::lemma_place(x, at, w, h);
    let k = ramp(r, c, x);
    assert forall|i: int| 0 <= i < n implies rows.near(#[trigger] (x + i * 0), at - r + i * 1) == k by {
        assert(x + i * 0 == x);
        assert(rows.near(x, at - r + i * 1) == k);
    }
    lemma_sum_along(rows, x, at - r, 0, 1, n, k);
    assert((n * k) / n == k) by (nonlinear_arith)
        requires
            n > 0,
    ;
}

/// An edge between lines blurs in the same way.
pub proof fn law_blurred_line_is_a_ramp(w: int, h: int, c: int, r: int, x: int, y: int)
    requires
        0 < w,
        0 < c < h,
        1 <= r,
        0 <= y < h,
    ensures
        below(w, h, c).blur(r).near(x, y) == ramp(r, c, y),
{
    let m = below(w, h, c);
    let rows = m.row_means(r);
    let n = 2 * r + 1;
    assert forall|u: int, v: int| #[trigger]
        m.near(u, v) == (if v >= c {
            255u8
        } else {
            0
        }) by {
        render::lemma_place(
            render::limited(u, 0, w - 1),
            render::limited(v, 0, h - 1),
            w,
            h,
        );
    }
    assert forall|u: int, v: int| #[trigger]
        rows.near(u, v) == (if v >= c {
            255u8
        } else {
            0
        }) by {
        let (a, b) = (render::limited(u, 0, w - 1), render::limited(v, 0, h - 1));
        render::lemma_place(a, b, w, h);
        let k = m.near(u, v) as int;
        assert forall|i: int| 0 <= i < n implies m.near(#[trigger] (a - r + i * 1), b + i * 0) == k by {
            assert(b + i * 0 == b);
            assert(m.near(a - r + i * 1, b) == k);
        }
        lemma_sum_along(m, a - r, b, 1, 0, n, k);
        assert((n * k) / n == k) by (nonlinear_arith)
            requires
                n > 0,
        ;
    }
    lemma_ramp(r, c, y);
    let at = render::limited(x, 0, w - 1);
    render::lemma_place(at, y, w, h);
    lemma_sum_down_edge(rows, c, at, y - r, n);
}

// ---- the waves move ----

/// The column and the line, beyond `from`, where the first two waves have their crest after `t` steps.
spec fn crest(t: int, from: int) -> (int, int) {
    let x = (64 - t) / 2 % 128 + 128 * from;
    let down = (235 - t - x / 2) % 256 + 256 * from;
    (x, (256 * down + 221) / 222)
}

proof fn lemma_crest(t: int, from: int)
    requires
        t % 2 == 0,
        1 <= from,
    ensures
        from <= crest(t, from).0 < 128 * (from + 1),
        from <= crest(t, from).1 < 300 * (from + 1),
        (2 * crest(t, from).0 + t - 64) % 256 == 0,
        (crest(t, from).0 / 2 + crest(t, from).1 * 222 / 256 + t + 85 - 64) % 256 == 0,
{
    let (x, y) = crest(t, from);
    let down = (235 - t - x / 2) % 256 + 256 * from;
    assert(y * 222 / 256 == down);
    assert((64 - t) % 2 == 0);
}

/// How many pixels of `2 * s + 1` make a coverage of 25.
spec fn visible(s: int) -> int {
    (25 * (2 * s + 1) + 254) / 255
}

proof fn lemma_visible(s: int, k: int)
    requires
        2 <= s,
        0 <= k <= 2 * s + 1,
    ensures
        1 <= visible(s) <= s,
        255 * k / (2 * s + 1) >= 25 <==> k >= visible(s),
{
    let n = 2 * s + 1;
    if k >= visible(s) {
        assert(255 * k / n >= 25) by (nonlinear_arith)
            requires
                255 * k >= 25 * n,
                n > 0,
        ;
    } else {
        assert(255 * k / n < 25) by (nonlinear_arith)
            requires
                255 * k < 25 * n,
                n > 0,
        ;
    }
}

proof fn lemma_reach(at: int, s: int)
    requires
        2 <= s,
    ensures
        at % 256 == 64 ==> reach(at, s) == s,
        at % 256 != 64 ==> -s <= reach(at, s) < s,
{
    let v = sine::value(at % 256) as int;
    sine::law_wave_is_a_sine(at % 256);
    if at % 256 == 64 {
        assert(1024 * s / 1024 == s);
    } else {
        assert(-1024 * s <= v * s <= 1023 * s) by (nonlinear_arith)
            requires
                -1024 <= v <= 1023,
                s > 0,
        ;
        assert(v < 0 ==> v * s < 0) by (nonlinear_arith)
            requires
                s > 0,
        ;
    }
}

proof fn lemma_alpha_at_edge(
    sheet: Sheet,
    s: int,
    c: int,
    phase_ms: int,
    x: int,
    y: int,
    at: int,
)
    requires
        2 <= s,
        sheet.pad == 3 * s,
        0 <= x < sheet.w,
        0 <= y < sheet.h,
        (2 * (x + sheet.pad) + steps_gone(phase_ms) - at) % 256 == 0,
        ((x + sheet.pad) / 2 + (y + sheet.pad) * 222 / 256 + steps_gone(phase_ms) + 85 - at) % 256 == 0,
        c == x + sheet.pad + 2 * s + 1 - visible(s),
        c < sheet.w + 2 * sheet.pad,
    ensures
        (component(
            sheet,
            sheet.with_effect(
                Seq::new((sheet.w * sheet.h) as nat, |i: int| 0u32),
                right_of(sheet.w + 2 * sheet.pad, sheet.h + 2 * sheet.pad, c),
                effect::flat(0xff_ffff, sheet.w),
                0,
                s,
                Effect::Liquid,
                phase_ms,
            ),
            x,
            y,
            24,
        ) > 0) == (at % 256 == 64),
{
    let (w, h) = (sheet.w + 2 * sheet.pad, sheet.h + 2 * sheet.pad);
    let (px, py) = (x + sheet.pad, y + sheet.pad);
    let m = right_of(w, h, c);
    let buf = Seq::new((sheet.w * sheet.h) as nat, |i: int| 0u32);
    let white = effect::flat(0xff_ffff, sheet.w);
    let third = -(px / 2) + py * 222 / 256 + steps_gone(phase_ms) + 170;
    lemma_visible(s, 0);
    render::lemma_place(x, y, sheet.w as int, sheet.h as int);
    assert(w * h >= 0) by (nonlinear_arith)
        requires
            w >= 0,
            h >= 0,
    ;
    law_liquid_pixel(sheet, buf, m, white, 0, s, phase_ms, x, y, 24, at, at, third);
    let high = m.blur(s);
    lemma_blur_size(m, s);
    lemma_reach(at, s);
    let dx = toward_zero(reach(at, s) + reach(at, s), 2);
    assert(dx == reach(at, s));
    let dy = toward_zero(reach(at + 62, s) + reach(at, s) - reach(third, s), 2);
    law_blurred_edge_is_a_ramp(w, h, c, s, px, py);
    law_blurred_edge_is_a_ramp(w, h, c, s, px - 1, py);
    law_blurred_edge_is_a_ramp(w, h, c, s, px + dx, py + dy);
    assert(high.cell(px, py) == high.near(px, py));
    assert(ramp(s, c, px) == 0) by {
        assert(0int / (2 * s + 1) == 0) by (nonlinear_arith)
            requires
                s > 0,
        ;
    }
    let v = high.near(px + dx, py + dy) as int;
    lemma_visible(s, render::limited(px + dx + s + 1 - c, 0, 2 * s + 1));
    assert(slope(high, 1, 0, 90, px, py) == 0);
    assert(v >= 25 <==> at % 256 == 64);
    assert(render::channel(0u32, 24) == 0) by {
        assert((0u32 >> 24) & 0xff == 0) by (bit_vector);
    }
    assert(component(sheet, buf, x, y, 24) == 0);
    let a = sharpened(v);
    assert(0 * (255 - a) / 255 == 0);
}

/// Liquid text moves: at two times at which the waves do not stand at the same step, and of which at
/// least the first is at an even one, there is a text whose pictures differ.
pub proof fn law_liquid_moves(s: int, p: int, q: int)
    requires
        2 <= s <= 1_000_000,
        steps_gone(p) % 2 == 0,
        (steps_gone(p) - steps_gone(q)) % 256 != 0,
    ensures
        exists|sheet: Sheet, m: mask::Cover, buf: Seq<u32>, colors: Seq<u32>| #[trigger]
            fits(sheet, m) && #[trigger] sheet.with_effect(buf, m, colors, 0, s, Effect::Liquid, p)
                != sheet.with_effect(buf, m, colors, 0, s, Effect::Liquid, q),
{
    let (t, u) = (steps_gone(p), steps_gone(q));
    let pad = 3 * s;
    let (px, py) = crest(t, pad);
    lemma_crest(t, pad);
    let sheet = Sheet { w: px as u32, h: py as u32, pad };
    let (x, y) = (px - pad, py - pad);
    lemma_visible(s, 0);
    let c = px + 2 * s + 1 - visible(s);
    let m = right_of(px + 2 * pad, py + 2 * pad, c);
    let buf = Seq::new((sheet.w * sheet.h) as nat, |i: int| 0u32);
    let white = effect::flat(0xff_ffff, sheet.w);
    let at = 64 + u - t;
    assert(at % 256 != 64);
    assert((2 * px + u - at) % 256 == (2 * px + t - 64) % 256);
    lemma_alpha_at_edge(sheet, s, c, p, x, y, 64);
    lemma_alpha_at_edge(sheet, s, c, q, x, y, at);
    assert((px + 2 * pad) * (py + 2 * pad) >= 0) by (nonlinear_arith)
        requires
            px >= 0,
            py >= 0,
            pad >= 0,
    ;
    assert(fits(sheet, m));
    let one = sheet.with_effect(buf, m, white, 0, s, Effect::Liquid, p);
    let two = sheet.with_effect(buf, m, white, 0, s, Effect::Liquid, q);
    assert(component(sheet, one, x, y, 24) != component(sheet, two, x, y, 24));
}

// ---- the other effects ----

proof fn lemma_moved(m: mask::Cover, dx: int, dy: int, num: int, x: int, y: int)
    requires
        0 <= x < m.w,
        0 <= y < m.h,
        0 <= num <= 255,
    ensures
        m.shift(dx, dy).cell(x, y) == m.cell(x - dx, y - dy),
        m.shift(dx, dy).scale(num, 255).cell(x, y) == m.cell(x - dx, y - dy) * num / 255,
{
    render::lemma_place(x, y, m.w, m.h);
    let v = m.cell(x - dx, y - dy);
    assert(0 <= v * num <= 65_025) by (nonlinear_arith)
        requires
            0 <= v <= 255,
            0 <= num <= 255,
    ;
}

/// How much more a pixel is covered than the least covered of it and of the four pixels that are `d`
/// away from it: the outline.
pub open spec fn outline(m: mask::Cover, d: int, x: int, y: int) -> int {
    let v = m.cell(x, y) as int;
    let a = positive(v - m.near(x - d, y));
    let b = positive(v - m.near(x + d, y));
    let c = positive(v - m.near(x, y - d));
    let e = positive(v - m.near(x, y + d));
    let f = if a > b {
        a
    } else {
        b
    };
    let g = if c > e {
        c
    } else {
        e
    };
    if f > g {
        f
    } else {
        g
    }
}

/// What erosion takes away is the outline.
pub proof fn law_erosion_takes_the_outline(m: mask::Cover, s: int, x: int, y: int)
    requires
        0 <= x < m.w,
        0 <= y < m.h,
        m.px.len() == m.w * m.h,
        1 <= s,
    ensures
        m.erode(s).cell(x, y) == m.cell(x, y) - outline(m, s, x, y),
        m.above(m.erode(s)).cell(x, y) == outline(m, s, x, y),
        m.above(m.erode(s)).w == m.w,
        m.above(m.erode(s)).h == m.h,
        m.above(m.erode(s)).px.len() == m.px.len(),
{
    render::lemma_place(x, y, m.w, m.h);
}

/// Text without an effect is laid over the canvas in its colors.
pub proof fn law_plain_pixel(
    sheet: Sheet,
    buf: Seq<u32>,
    m: mask::Cover,
    colors: Seq<u32>,
    shadow: u32,
    s: int,
    phase_ms: int,
    x: int,
    y: int,
    shift: u32,
)
    requires
        fits(sheet, m),
        on_canvas(sheet, buf, colors, x, y),
        is_component(shift),
    ensures
        ({
            let (px, py) = (x + sheet.pad, y + sheet.pad);
            let before = component(sheet, buf, x, y, shift);
            component(
                sheet,
                sheet.with_effect(buf, m, colors, shadow, s, Effect::Plain, phase_ms),
                x,
                y,
                shift,
            ) == laid_over(before, colors[x], shift, m.cell(px, py) as int)
        }),
{
    let (px, py) = (x + sheet.pad, y + sheet.pad);
    let white = effect::flat(0xff_ffff, sheet.w);
    lemma_laid(sheet, buf, m, colors, 255, x, y, shift);
    assert(sheet.with_effect(buf, m, colors, shadow, s, Effect::Plain, phase_ms) == sheet.over(buf, m, colors, 255)) by {
        reveal(Sheet::with_effect);
    }
}

/// Under retro text lies its shadow, `s` pixels to the right and below, 150 of 255 as strong.
pub proof fn law_retro_pixel(
    sheet: Sheet,
    buf: Seq<u32>,
    m: mask::Cover,
    colors: Seq<u32>,
    shadow: u32,
    s: int,
    phase_ms: int,
    x: int,
    y: int,
    shift: u32,
)
    requires
        fits(sheet, m),
        on_canvas(sheet, buf, colors, x, y),
        is_component(shift),
    ensures
        ({
            let (px, py) = (x + sheet.pad, y + sheet.pad);
            let before = component(sheet, buf, x, y, shift);
            component(
                sheet,
                sheet.with_effect(buf, m, colors, shadow, s, Effect::Retro, phase_ms),
                x,
                y,
                shift,
            ) == laid_over(
                laid_over(before, shadow, shift, m.cell(px - s, py - s) * 150 / 255),
                colors[x],
                shift,
                m.cell(px, py) as int,
            )
        }),
{
    let (px, py) = (x + sheet.pad, y + sheet.pad);
    let white = effect::flat(0xff_ffff, sheet.w);
    let dark = m.shift(s, s).scale(150, 255);
    let shades = effect::flat(shadow, sheet.w);
    let under = sheet.over(buf, dark, shades, 255);
    lemma_moved(m, s, s, 150, px, py);
    lemma_laid(sheet, buf, dark, shades, 255, x, y, shift);
    lemma_laid(sheet, under, m, colors, 255, x, y, shift);
    assert(sheet.with_effect(buf, m, colors, shadow, s, Effect::Retro, phase_ms) == sheet.retro(buf, m, colors, shadow, s)) by {
        reveal(Sheet::with_effect);
    }
}

/// Under glowing text lie two halos in its colors: a wide one and a narrow one.
pub proof fn law_glow_pixel(
    sheet: Sheet,
    buf: Seq<u32>,
    m: mask::Cover,
    colors: Seq<u32>,
    shadow: u32,
    s: int,
    phase_ms: int,
    x: int,
    y: int,
    shift: u32,
)
    requires
        fits(sheet, m),
        on_canvas(sheet, buf, colors, x, y),
        is_component(shift),
    ensures
        ({
            let (px, py) = (x + sheet.pad, y + sheet.pad);
            let before = component(sheet, buf, x, y, shift);
            let wide = added_to(before, colors[x], shift, m.blur(2 * s).cell(px, py) * 220 / 255);
            let narrow = added_to(wide, colors[x], shift, m.blur(s).cell(px, py) * 150 / 255);
            component(
                sheet,
                sheet.with_effect(buf, m, colors, shadow, s, Effect::Glow, phase_ms),
                x,
                y,
                shift,
            ) == laid_over(narrow, colors[x], shift, m.cell(px, py) as int)
        }),
{
    let (px, py) = (x + sheet.pad, y + sheet.pad);
    let white = effect::flat(0xff_ffff, sheet.w);
    let wide = sheet.plus(buf, m.blur(2 * s), colors, 220);
    let narrow = sheet.plus(wide, m.blur(s), colors, 150);
    lemma_laid(sheet, buf, m.blur(2 * s), colors, 220, x, y, shift);
    lemma_laid(sheet, wide, m.blur(s), colors, 150, x, y, shift);
    lemma_laid(sheet, narrow, m, colors, 255, x, y, shift);
    assert(sheet.with_effect(buf, m, colors, shadow, s, Effect::Glow, phase_ms) == sheet.glow(buf, m, colors, s)) by {
        reveal(Sheet::with_effect);
    }
}

proof fn lemma_bright(tube: mask::Cover, x: int, y: int)
    requires
        0 <= x < tube.w,
        0 <= y < tube.h,
        tube.px.len() == tube.w * tube.h,
    ensures
        effect::bright(tube).cell(x, y) == upto_255(4 * positive(tube.cell(x, y) - 190)),
{
    render::lemma_place(x, y, tube.w, tube.h);
}

proof fn lemma_rim_size(m: mask::Cover, s: int)
    requires
        m.w >= 0,
        m.h >= 0,
        m.px.len() == m.w * m.h,
    ensures
        m.above(m.erode(s)).blur(s).w == m.w,
        m.above(m.erode(s)).blur(s).h == m.h,
        m.above(m.erode(s)).blur(s).px.len() == m.w * m.h,
{
    lemma_blur_size(m.above(m.erode(s)), s);
}

/// Neon text is its outline, a tube of light. Under it lie a faint halo of the text, the light of the
/// tube, and white where the tube is brightest.
pub proof fn law_neon_pixel(
    sheet: Sheet,
    buf: Seq<u32>,
    m: mask::Cover,
    colors: Seq<u32>,
    shadow: u32,
    s: int,
    phase_ms: int,
    x: int,
    y: int,
    shift: u32,
)
    requires
        fits(sheet, m),
        on_canvas(sheet, buf, colors, x, y),
        is_component(shift),
        1 <= s,
    ensures
        ({
            let (px, py) = (x + sheet.pad, y + sheet.pad);
            let before = component(sheet, buf, x, y, shift);
            let tube = m.above(m.erode(s)).blur(s);
            let halo = added_to(before, colors[x], shift, m.blur(2 * s).cell(px, py) * 55 / 255);
            let lit = added_to(halo, colors[x], shift, tube.cell(px, py) * 200 / 255);
            let core = added_to(lit, 0xff_ffff, shift, upto_255(4 * positive(tube.cell(px, py) - 190)));
            component(
                sheet,
                sheet.with_effect(buf, m, colors, shadow, s, Effect::Neon, phase_ms),
                x,
                y,
                shift,
            ) == laid_over(core, colors[x], shift, outline(m, s, px, py))
        }),
{
    let (px, py) = (x + sheet.pad, y + sheet.pad);
    let white = effect::flat(0xff_ffff, sheet.w);
    let rim = m.above(m.erode(s));
    let tube = rim.blur(s);
    lemma_rim_size(m, s);
    lemma_bright(tube, px, py);
    law_erosion_takes_the_outline(m, s, px, py);
    let halo = sheet.plus(buf, m.blur(2 * s), colors, 55);
    let lit = sheet.plus(halo, tube, colors, 200);
    let core = sheet.plus(lit, effect::bright(tube), white, 255);
    lemma_laid(sheet, buf, m.blur(2 * s), colors, 55, x, y, shift);
    lemma_laid(sheet, halo, tube, colors, 200, x, y, shift);
    lemma_laid(sheet, lit, effect::bright(tube), white, 255, x, y, shift);
    lemma_laid(sheet, core, rim, colors, 255, x, y, shift);
    assert(sheet.with_effect(buf, m, colors, shadow, s, Effect::Neon, phase_ms) == sheet.neon(buf, m, colors, s)) by {
        reveal(Sheet::with_effect);
    }
}

/// How much of glass is seen at a pixel: three quarters of the coverage, and up to 31 more toward the
/// top.
pub open spec fn sheen_at(m: mask::Cover, x: int, y: int) -> int {
    if m.cell(x, y) == 0 {
        0
    } else {
        upto_255(3 * m.cell(x, y) / 4 + (255 - 255 * y / m.h) / 8)
    }
}

proof fn lemma_sheen(m: mask::Cover, x: int, y: int)
    requires
        0 <= x < m.w,
        0 <= y < m.h,
    ensures
        effect::sheen(m).cell(x, y) == sheen_at(m, x, y),
{
    render::lemma_place(x, y, m.w, m.h);
    let h = m.h;
    assert(0 <= 255 * y / h <= 255) by (nonlinear_arith)
        requires
            0 <= y < h,
    ;
    assert(y * 255 == 255 * y);
}

/// Under text of glass lies a soft black shadow; over it come white lights where its upper left and,
/// fainter, its lower right edges are.
pub proof fn law_glass_pixel(
    sheet: Sheet,
    buf: Seq<u32>,
    m: mask::Cover,
    colors: Seq<u32>,
    shadow: u32,
    s: int,
    phase_ms: int,
    x: int,
    y: int,
    shift: u32,
)
    requires
        fits(sheet, m),
        on_canvas(sheet, buf, colors, x, y),
        is_component(shift),
    ensures
        ({
            let (px, py) = (x + sheet.pad, y + sheet.pad);
            let before = component(sheet, buf, x, y, shift);
            let soft = laid_over(before, 0, shift, m.blur(s).cell(px - s, py - s) * 150 / 255);
            let body = laid_over(soft, colors[x], shift, sheen_at(m, px, py));
            let upper = added_to(body, 0xff_ffff, shift, slope(m, s, s, 40, px, py));
            component(
                sheet,
                sheet.with_effect(buf, m, colors, shadow, s, Effect::Glass, phase_ms),
                x,
                y,
                shift,
            ) == added_to(upper, 0xff_ffff, shift, slope(m, -s, -s, 16, px, py))
        }),
{
    let (px, py) = (x + sheet.pad, y + sheet.pad);
    let white = effect::flat(0xff_ffff, sheet.w);
    let dark = m.blur(s).shift(s, s);
    let black = effect::flat(0, sheet.w);
    let first = m.above(m.shift(s, s)).scale(40, 255);
    let second = m.above(m.shift(-s, -s)).scale(16, 255);
    lemma_blur_size(m, s);
    lemma_moved(m.blur(s), s, s, 255, px, py);
    lemma_sheen(m, px, py);
    lemma_slope(m, s, s, 40, px, py);
    lemma_slope(m, -s, -s, 16, px, py);
    let soft = sheet.over(buf, dark, black, 150);
    let body = sheet.over(soft, effect::sheen(m), colors, 255);
    let upper = sheet.plus(body, first, white, 255);
    lemma_laid(sheet, buf, dark, black, 150, x, y, shift);
    lemma_laid(sheet, soft, effect::sheen(m), colors, 255, x, y, shift);
    lemma_laid(sheet, body, first, white, 255, x, y, shift);
    lemma_laid(sheet, upper, second, white, 255, x, y, shift);
    assert(sheet.with_effect(buf, m, colors, shadow, s, Effect::Glass, phase_ms) == sheet.glass(buf, m, colors, s)) by {
        reveal(Sheet::with_effect);
    }
}

/// How steep a coverage is at a pixel, from `d` before to `d` behind it, squared, and 200 at most.
pub open spec fn steepness(m: mask::Cover, d: int, x: int, y: int) -> int {
    let (a, b) = (m.near(x + d, y) - m.near(x - d, y), m.near(x, y + d) - m.near(x, y - d));
    let v = (positive(a) + positive(-a) + positive(b) + positive(-b)) / 3;
    if v * v / 255 > 200 {
        200
    } else {
        v * v / 255
    }
}

proof fn lemma_steepness(m: mask::Cover, d: int, x: int, y: int)
    requires
        0 <= x < m.w,
        0 <= y < m.h,
    ensures
        effect::steep(m, d).cell(x, y) == steepness(m, d, x, y),
        0 <= steepness(m, d, x, y) <= 200,
{
    render::lemma_place(x, y, m.w, m.h);
    let (a, b) = (m.near(x + d, y) - m.near(x - d, y), m.near(x, y + d) - m.near(x, y - d));
    let sum = positive(a) + positive(-a) + positive(b) + positive(-b);
    assert(sum * 85 / 255 == sum / 3);
    let v = sum / 3;
    assert(0 <= v * v) by (nonlinear_arith);
}

/// Under holographic text lie three soft halos: a red one `s` pixels to the right, a green one, and a
/// blue one `s` pixels to the left; and white where they are steepest.
pub proof fn law_holographic_pixel(
    sheet: Sheet,
    buf: Seq<u32>,
    m: mask::Cover,
    colors: Seq<u32>,
    shadow: u32,
    s: int,
    phase_ms: int,
    x: int,
    y: int,
    shift: u32,
)
    requires
        fits(sheet, m),
        on_canvas(sheet, buf, colors, x, y),
        is_component(shift),
    ensures
        ({
            let (px, py) = (x + sheet.pad, y + sheet.pad);
            let before = component(sheet, buf, x, y, shift);
            let soft = m.blur(s).blur(s);
            let red = added_to(before, 0xff3030, shift, soft.cell(px - s, py) * 170 / 255);
            let green = added_to(red, 0x30ff60, shift, soft.cell(px, py) * 170 / 255);
            let blue = added_to(green, 0x4060ff, shift, soft.cell(px + s, py) * 170 / 255);
            let rim = added_to(blue, 0xff_ffff, shift, steepness(soft, s, px, py));
            component(
                sheet,
                sheet.with_effect(buf, m, colors, shadow, s, Effect::Holographic, phase_ms),
                x,
                y,
                shift,
            ) == laid_over(rim, colors[x], shift, m.cell(px, py) * 235 / 255)
        }),
{
    let (px, py) = (x + sheet.pad, y + sheet.pad);
    let white = effect::flat(0xff_ffff, sheet.w);
    let soft = m.blur(s).blur(s);
    lemma_blur_size(m, s);
    lemma_blur_size(m.blur(s), s);
    lemma_moved(soft, s, 0, 255, px, py);
    lemma_moved(soft, -s, 0, 255, px, py);
    lemma_steepness(soft, s, px, py);
    let one = effect::flat(0xff3030, sheet.w);
    let two = effect::flat(0x30ff60, sheet.w);
    let three = effect::flat(0x4060ff, sheet.w);
    let red = sheet.plus(buf, soft.shift(s, 0), one, 170);
    let green = sheet.plus(red, soft, two, 170);
    let blue = sheet.plus(green, soft.shift(-s, 0), three, 170);
    let rim = sheet.plus(blue, effect::steep(soft, s), white, 255);
    lemma_laid(sheet, buf, soft.shift(s, 0), one, 170, x, y, shift);
    lemma_laid(sheet, red, soft, two, 170, x, y, shift);
    lemma_laid(sheet, green, soft.shift(-s, 0), three, 170, x, y, shift);
    lemma_laid(sheet, blue, effect::steep(soft, s), white, 255, x, y, shift);
    lemma_laid(sheet, rim, m, colors, 235, x, y, shift);
    assert(sheet.with_effect(buf, m, colors, shadow, s, Effect::Holographic, phase_ms) == sheet.holographic(buf, m, colors, s)) by {
        reveal(Sheet::with_effect);
    }
}

proof fn lemma_ripples(m: mask::Cover, s: int, phase_ms: int)
    requires
        m.w >= 0,
        m.h >= 0,
    ensures
        effect::ripples(m, s, phase_ms).w == m.w,
        effect::ripples(m, s, phase_ms).h == m.h,
        effect::ripples(m, s, phase_ms).px.len() == m.w * m.h,
{
    assert(m.w * m.h >= 0) by (nonlinear_arith)
        requires
            m.w >= 0,
            m.h >= 0,
    ;
}

/// Under aqua text, which noise has moved, lies its own halo, `s` pixels to the right and below.
pub proof fn law_aqua_pixel(
    sheet: Sheet,
    buf: Seq<u32>,
    m: mask::Cover,
    colors: Seq<u32>,
    shadow: u32,
    s: int,
    phase_ms: int,
    x: int,
    y: int,
    shift: u32,
)
    requires
        fits(sheet, m),
        on_canvas(sheet, buf, colors, x, y),
        is_component(shift),
    ensures
        ({
            let (px, py) = (x + sheet.pad, y + sheet.pad);
            let before = component(sheet, buf, x, y, shift);
            let bent = effect::ripples(m, s, phase_ms);
            let halo = added_to(before, colors[x], shift, bent.blur(s).cell(px - s, py - s) * 90 / 255);
            component(
                sheet,
                sheet.with_effect(buf, m, colors, shadow, s, Effect::Aqua, phase_ms),
                x,
                y,
                shift,
            ) == laid_over(halo, colors[x], shift, bent.cell(px, py) as int)
        }),
{
    let (px, py) = (x + sheet.pad, y + sheet.pad);
    let white = effect::flat(0xff_ffff, sheet.w);
    let bent = effect::ripples(m, s, phase_ms);
    lemma_ripples(m, s, phase_ms);
    lemma_blur_size(bent, s);
    let soft = bent.blur(s).shift(s, s).scale(90, 255);
    lemma_moved(bent.blur(s), s, s, 90, px, py);
    let halo = sheet.plus(buf, soft, colors, 255);
    lemma_laid(sheet, buf, soft, colors, 255, x, y, shift);
    lemma_laid(sheet, halo, bent, colors, 255, x, y, shift);
    assert(sheet.with_effect(buf, m, colors, shadow, s, Effect::Aqua, phase_ms) == sheet.aqua(buf, m, colors, s, phase_ms)) by {
        reveal(Sheet::with_effect);
    }
}

// ---- text as a coverage ----

/// A bitmap has eight rows of eight squares: the square in a row and a column is covered where the
/// row's number has that binary digit, so that the lowest digit is on the left.
pub proof fn law_bitmap_squares(
    glyph: [u8; 8],
    cell: u32,
    gx: int,
    gy: int,
    row: int,
    col: int,
    i: int,
    j: int,
)
    requires
        0 <= row < 8,
        0 <= col < 8,
        0 <= i < cell,
        0 <= j < cell,
    ensures
        render::bitmap_covers(
            glyph,
            cell,
            gx,
            gy,
            gx + col * cell + i,
            gy + row * cell + j,
        ) <==> deflate::digit(glyph@[row] as int, col) == 1,
        forall|x: int, y: int|
            #![trigger render::bitmap_covers(glyph, cell, gx, gy, x, y)]
            !(gx <= x < gx + 8 * cell && gy <= y < gy + 8 * cell) ==> !render::bitmap_covers(
                glyph,
                cell,
                gx,
                gy,
                x,
                y,
            ),
{
    let c = cell as int;
    vstd::arithmetic::div_mod::lemma_fundamental_div_mod_converse(col * c + i, c, col, i);
    vstd::arithmetic::div_mod::lemma_fundamental_div_mod_converse(row * c + j, c, row, j);
    assert(0 <= col * c + i < 8 * c && 0 <= row * c + j < 8 * c) by (nonlinear_arith)
        requires
            0 <= row < 8,
            0 <= col < 8,
            0 <= i < c,
            0 <= j < c,
    ;
    let b = seq![glyph@[row]];
    deflate::lemma_bit_is_digit(b, col);
    assert(col / 8 == 0 && col % 8 == col);
    assert(b[0] == glyph@[row]);
}

proof fn lemma_glyphs_cover(
    c: mask::Cover,
    glyphs: Seq<Glyph>,
    dx: int,
    dy: int,
    n: int,
    x: int,
    y: int,
)
    requires
        0 <= n <= glyphs.len(),
        0 <= x < c.w,
        0 <= y < c.h,
    ensures
        ({
            let all = effect::with_glyphs(c, glyphs, dx, dy, n);
            &&& all.w == c.w
            &&& all.h == c.h
            &&& all.cell(x, y) >= c.cell(x, y)
            &&& forall|k: int|
                0 <= k < n ==> all.cell(x, y) >= mask::glyph_cover(
                    #[trigger] glyphs[k],
                    x - glyphs[k].x - dx,
                    y - glyphs[k].y - dy,
                )
            &&& all.cell(x, y) == c.cell(x, y) || exists|k: int|
                0 <= k < n && all.cell(x, y) == mask::glyph_cover(
                    #[trigger] glyphs[k],
                    x - glyphs[k].x - dx,
                    y - glyphs[k].y - dy,
                )
        }),
    decreases n,
{
    if n > 0 {
        lemma_glyphs_cover(c, glyphs, dx, dy, n - 1, x, y);
        let before = effect::with_glyphs(c, glyphs, dx, dy, n - 1);
        render::lemma_place(x, y, before.w, before.h);
        let g = glyphs[n - 1];
        assert(effect::with_glyphs(c, glyphs, dx, dy, n).cell(x, y) == mask::greater(
            before.cell(x, y),
            mask::glyph_cover(g, x - g.x - dx, y - g.y - dy),
        ));
    }
}

/// The coverage of a pixel by text is the greatest of those by its glyphs, each where its line and the
/// margin put it; where there is none it is none.
pub proof fn law_text_covers_as_its_glyphs(w: int, h: int, rows: Seq<Row>, off: int, n: int, x: int, y: int)
    requires
        0 <= n <= rows.len(),
        0 <= x < w,
        0 <= y < h,
    ensures
        ({
            let m = effect::text_cover(w, h, rows, off, n);
            &&& m.w == w
            &&& m.h == h
            &&& m.px.len() == w * h
            &&& forall|r: int, k: int|
                0 <= r < n && 0 <= k < rows[r].run.glyphs@.len() ==> m.cell(x, y) >= cover_in_row(
                    w,
                    rows[r],
                    off,
                    #[trigger] rows[r].run.glyphs@[k],
                    x,
                    y,
                )
            &&& m.cell(x, y) == 0 || exists|r: int, k: int|
                0 <= r < n && 0 <= k < rows[r].run.glyphs@.len() && m.cell(x, y) == cover_in_row(
                    w,
                    rows[r],
                    off,
                    #[trigger] rows[r].run.glyphs@[k],
                    x,
                    y,
                )
        }),
    decreases n,
{
    assert(w * h >= 0) by (nonlinear_arith)
        requires
            w >= 0,
            h >= 0,
    ;
    if n > 0 {
        law_text_covers_as_its_glyphs(w, h, rows, off, n - 1, x, y);
        let before = effect::text_cover(w, h, rows, off, n - 1);
        let run = *rows[n - 1].run;
        let dx = effect::indent(w - 2 * off, run) + off;
        lemma_glyphs_cover(before, run.glyphs@, dx, off, run.glyphs@.len() as int, x, y);
        lemma_glyphs_size(before, run.glyphs@, dx, off, run.glyphs@.len() as int);
        let all = effect::text_cover(w, h, rows, off, n);
        assert forall|r: int, k: int|
            0 <= r < n && 0 <= k < rows[r].run.glyphs@.len() implies all.cell(x, y) >= cover_in_row(
            w,
            rows[r],
            off,
            #[trigger] rows[r].run.glyphs@[k],
            x,
            y,
        ) by {
            if r == n - 1 {
                assert(run.glyphs@[k] == rows[r].run.glyphs@[k]);
            }
        }
        if all.cell(x, y) != before.cell(x, y) {
            let k = choose|k: int|
                0 <= k < run.glyphs@.len() && all.cell(x, y) == mask::glyph_cover(
                    #[trigger] run.glyphs@[k],
                    x - run.glyphs@[k].x - dx,
                    y - run.glyphs@[k].y - off,
                );
            assert(rows[n - 1].run.glyphs@[k] == run.glyphs@[k]);
        } else if all.cell(x, y) != 0 {
            let (r, k) = choose|r: int, k: int|
                0 <= r < n - 1 && 0 <= k < rows[r].run.glyphs@.len() && before.cell(x, y) == cover_in_row(
                    w,
                    rows[r],
                    off,
                    #[trigger] rows[r].run.glyphs@[k],
                    x,
                    y,
                );
            assert(all.cell(x, y) == cover_in_row(w, rows[r], off, rows[r].run.glyphs@[k], x, y));
        }
    } else {
        render::lemma_place(x, y, w, h);
    }
}

/// The coverage of a pixel by a glyph of a line, which stands in the middle of what the margin leaves,
/// or at its left edge where it is wider.
pub open spec fn cover_in_row(w: int, row: Row, off: int, g: Glyph, x: int, y: int) -> u8 {
    let room = w - 2 * off - row.run.width;
    mask::glyph_cover(g, x - off - g.x - positive(room) / 2, y - off - g.y)
}

proof fn lemma_glyphs_size(c: mask::Cover, glyphs: Seq<Glyph>, dx: int, dy: int, n: int)
    requires
        0 <= n <= glyphs.len(),
        c.w >= 0,
        c.h >= 0,
        c.px.len() == c.w * c.h,
    ensures
        effect::with_glyphs(c, glyphs, dx, dy, n).w == c.w,
        effect::with_glyphs(c, glyphs, dx, dy, n).h == c.h,
        effect::with_glyphs(c, glyphs, dx, dy, n).px.len() == c.w * c.h,
    decreases n,
{
    if n > 0 {
        lemma_glyphs_size(c, glyphs, dx, dy, n - 1);
    }
}

/// Liquid text on the canvas moves with the time that has passed: each pixel is that of the text's
/// coverage with the waves as far on as the time says.
pub proof fn law_drawn_liquid_pixel(
    buf: Seq<u32>,
    w: u32,
    h: u32,
    rows: Seq<Row>,
    stops: Seq<u32>,
    phase_ms: u32,
    x: int,
    y: int,
    shift: u32,
    a: int,
    b: int,
    c: int,
)
    requires
        0 <= x < w,
        0 <= y < h,
        buf.len() == w * h,
        is_component(shift),
        ({
            let pad = 3 * effect::largest_scale(rows, rows.len() as int);
            let t = steps_gone(phase_ms as int);
            &&& (2 * (x + pad) + t - a) % 256 == 0
            &&& ((x + pad) / 2 + (y + pad) * 222 / 256 + t + 85 - b) % 256 == 0
            &&& (-((x + pad) / 2) + (y + pad) * 222 / 256 + t + 170 - c) % 256 == 0
        }),
    ensures
        ({
            let s = effect::largest_scale(rows, rows.len() as int);
            let pad = 3 * s;
            let sheet = Sheet { w, h, pad };
            let m = effect::text_cover(w + 2 * pad, h + 2 * pad, rows, pad, rows.len() as int);
            let high = m.blur(s);
            let (px, py) = (x + pad, y + pad);
            let moved = high.near(
                px + toward_zero(reach(a, s) + reach(b, s), 2),
                py + toward_zero(reach(a + 62, s) + reach(b, s) - reach(c, s), 2),
            );
            component(
                sheet,
                effect::drawn(buf, w, h, rows, stops, Effect::Liquid, phase_ms),
                x,
                y,
                shift,
            ) == added_to(
                laid_over(
                    component(sheet, buf, x, y, shift),
                    effect::color_at(stops, x, w, phase_ms) as u32,
                    shift,
                    sharpened(moved as int),
                ),
                0xff_ffff,
                shift,
                slope(high, 1, 0, 90, px, py),
            )
        }),
{
    let n = rows.len() as int;
    let s = effect::largest_scale(rows, n);
    effect::lemma_largest_scale(rows, n);
    let pad = 3 * s;
    let sheet = Sheet { w, h, pad };
    let m = effect::text_cover(w + 2 * pad, h + 2 * pad, rows, pad, n);
    law_text_covers_as_its_glyphs(w + 2 * pad, h + 2 * pad, rows, pad, n, 0, 0);
    let colors = effect::columns(stops, w, phase_ms);
    law_liquid_pixel(
        sheet,
        buf,
        m,
        colors,
        effect::shadow_color(stops),
        s,
        phase_ms as int,
        x,
        y,
        shift,
        a,
        b,
        c,
    );
}

// ---- aqua ----

/// The noise that moves aqua text is another one every fourteen seconds, and stays until then.
pub proof fn law_noise_changes_every_fourteen_seconds(
    sheet: Sheet,
    buf: Seq<u32>,
    m: mask::Cover,
    colors: Seq<u32>,
    shadow: u32,
    s: int,
    p: int,
    q: int,
)
    requires
        0 <= p <= u32::MAX,
        0 <= q <= u32::MAX,
    ensures
        effect::noise_seed(p) == effect::noise_seed(q) <==> p / 14_000 == q / 14_000,
        p / 14_000 == q / 14_000 ==> sheet.with_effect(buf, m, colors, shadow, s, Effect::Aqua, p)
            == sheet.with_effect(buf, m, colors, shadow, s, Effect::Aqua, q),
{
    reveal(Sheet::with_effect);
    if p / 14_000 == q / 14_000 {
        assert forall|x: int, y: int| #[trigger]
            effect::ripple_at(m, s, p, x, y) == effect::ripple_at(m, s, q, x, y) by {}
        assert(effect::ripples(m, s, p).px =~= effect::ripples(m, s, q).px);
    }
}

/// A lattice point of the noise is as many steps from the corner as it is a multiple of the step.
proof fn lemma_on_lattice(k: nat, step: nat)
    requires
        0 < step,
        k * step < 0x100_0000,
        step < 0x100_0000,
        k < 0x100_0000,
    ensures
        effect::lattice_point(k * step, step) == (k, 0nat),
{
    let one = ONE as nat;
    power2::lemma2_to64();
    let x = k * step;
    single::law_few_bits_are_exact(x, 0, 1);
    single::law_few_bits_are_exact(step, 0, 1);
    assert(x * 1 * 1 == x && step * 1 * 1 == step);
    assert(x * one == k * power2::pow2(64) * step) by (nonlinear_arith)
        requires
            x == k * step,
            one == power2::pow2(64),
    ;
    single::law_few_bits_are_exact(k, 64, step);
    let f = k * one;
    vstd::arithmetic::div_mod::lemma_fundamental_div_mod_converse(f as int, one as int, k as int, 0);
    single::law_few_bits_are_exact(0, 0, 1);
    assert(0 * power2::pow2(0) * 1 == 0);
}

/// The noise at a point of its lattice is that point's own.
pub proof fn law_noise_on_its_lattice(k: nat, l: nat, step: nat, seed: u32)
    requires
        0 < step < 0x100_0000,
        k * step < 0x100_0000,
        l * step < 0x100_0000,
    ensures
        effect::noise_at(k * step, l * step, step, seed) == effect::noise(k as u32, l as u32, seed),
{
    assert(k <= k * step && l <= l * step) by (nonlinear_arith)
        requires
            0 < step,
    ;
    lemma_on_lattice(k, step);
    lemma_on_lattice(l, step);
    let n = effect::noise(k as u32, l as u32, seed) as int;
    let o = effect::noise((k + 1) as u32, l as u32, seed) as int;
    let p = effect::noise(k as u32, (l + 1) as u32, seed) as int;
    let q = effect::noise((k + 1) as u32, (l + 1) as u32, seed) as int;
    assert(n * (255 - 0) / 255 == n && p * (255 - 0) / 255 == p);
    assert(o * 0 / 255 == 0 && q * 0 / 255 == 0);
    assert(n * (255 - 0) + p * 0 == n * 255);
}

/// Noise moves each pixel of aqua text by up to `s` pixels: where the noise there is 128 not at all,
/// and else in proportion, sideways by the noise at the pixel and up or down by that at the next one to
/// the lower right. The points of the noise are four times `s` apart, and eight pixels at least.
pub proof fn law_ripple_pixel(m: mask::Cover, s: int, phase_ms: int, x: int, y: int, step: nat)
    requires
        0 <= x < m.w,
        0 <= y < m.h,
        0 <= s,
        step >= 8,
        step == 4 * s || step == 8 && 4 * s < 8,
    ensures
        ({
            let seed = effect::noise_seed(phase_ms);
            let across = effect::noise_at(x as nat, y as nat, step, seed);
            let down = effect::noise_at((x + 1) as nat, (y + 1) as nat, step, seed);
            effect::ripples(m, s, phase_ms).cell(x, y) == m.near(
                x + toward_zero((across - 128) * s, 128),
                y + toward_zero((down - 128) * s, 128),
            )
        }),
{
    lemma_new_cell(m.w, m.h, |x: int, y: int| effect::ripple_at(m, s, phase_ms, x, y), x, y);
}

/// The shadow is in the last color of several; that of a single color is white behind a dark one and
/// black behind a light one, by how bright its red, green and blue look together.
pub proof fn law_shadow_stands_out(c: u32, d: u32)
    ensures
        effect::shadow_color(seq![c, d]) == d,
        ({
            let look = 299 * render::channel(c, 16) + 587 * render::channel(c, 8) + 114 * render::channel(
                c,
                0,
            );
            effect::shadow_color(seq![c]) == (if look < 120_000 {
                0xff_ffffu32
            } else {
                0
            })
        }),
{
}

/// A pixel beside a coverage counts as the nearest one of it.
pub proof fn law_nearest_pixel(m: mask::Cover, x: int, y: int)
    requires
        0 < m.w,
        0 < m.h,
    ensures
        0 <= x < m.w && 0 <= y < m.h ==> m.near(x, y) == m.cell(x, y),
        x < 0 ==> m.near(x, y) == m.near(0, y),
        x >= m.w ==> m.near(x, y) == m.near(m.w - 1, y),
        y < 0 ==> m.near(x, y) == m.near(x, 0),
        y >= m.h ==> m.near(x, y) == m.near(x, m.h - 1),
{
}

/// The scale that counts is the largest of the lines, and one at least.
pub proof fn law_largest_scale(rows: Seq<Row>, n: int, i: int)
    requires
        0 <= i < n <= rows.len(),
    ensures
        effect::largest_scale(rows, n) >= rows[i].scale,
        effect::largest_scale(rows, n) >= 1,
        effect::largest_scale(rows, n) == 1 || exists|k: int|
            0 <= k < n && effect::largest_scale(rows, n) == (#[trigger] rows[k]).scale,
    decreases n,
{
    effect::lemma_largest_scale(rows, n);
    if n > 1 {
        if i < n - 1 {
            law_largest_scale(rows, n - 1, i);
        } else {
            law_largest_scale(rows, n - 1, 0);
        }
    } else {
        assert(effect::largest_scale(rows, 0) == 1);
    }
    let last = rows[n - 1];
}

/// A gray glyph lays its color over each pixel that it covers, as much as it covers it; a bitmap puts
/// its color there; and beside a glyph nothing changes.
pub proof fn law_glyph_pixel(g: Glyph, dx: int, color: u32, x: int, y: int, dst: u32, shift: u32)
    requires
        is_component(shift),
    ensures
        g.body matches GlyphBody::Gray { gray, w, h, .. } ==> {
            let (col, row) = (x - g.x - dx, y - g.y);
            let inside = 0 <= col < w && 0 <= row < h;
            &&& !inside ==> render::glyph_pixel(g, dx, color, x, y, dst) == dst
            &&& inside ==> render::channel(render::glyph_pixel(g, dx, color, x, y, dst), shift) == laid_over(
                render::channel(dst, shift),
                color,
                shift,
                gray@[row * w + col] as int,
            )
        },
        g.body matches GlyphBody::Bits { bits, cell } ==> {
            let there = render::bitmap_covers(bits, cell, g.x + dx, g.y as int, x, y);
            render::glyph_pixel(g, dx, color, x, y, dst) == (if there {
                color
            } else {
                dst
            })
        },
{
    match g.body {
        GlyphBody::Gray { gray, w, h, .. } => {
            let (col, row) = (x - g.x - dx, y - g.y);
            if 0 <= col < w && 0 <= row < h {
                let c = (color & 0xff_ffff) as u32;
                law_layer(dst, c, gray@[row * w + col], shift);
                assert((c >> 16) & 0xff == (color >> 16) & 0xff && (c >> 8) & 0xff == (color >> 8) & 0xff && (c
                    >> 0) & 0xff == (color >> 0) & 0xff) by (bit_vector)
                    requires
                        c == color & 0xff_ffff,
                ;
                assert(x - (g.x + dx) == col);
            }
        },
        GlyphBody::Bits { .. } => {},
    }
}

/// The noise of a point is scrambled out of one number of 32 bits, to which a column, a line and a
/// seed each add their own: where that number is the same, so is the noise.
pub proof fn law_noise_is_scrambled(x: u32, y: u32, seed: u32, u: u32, v: u32, other: u32)
    requires
        (374_761_393 * x + 668_265_263 * y + 2_246_822_519 * seed - (374_761_393 * u + 668_265_263 * v
            + 2_246_822_519 * other)) % 0x1_0000_0000 == 0,
    ensures
        effect::noise(x, y, seed) == effect::noise(u, v, other),
{
    let a = x * 374_761_393 + y * 668_265_263 + seed * 2_246_822_519;
    let b = u * 374_761_393 + v * 668_265_263 + other * 2_246_822_519;
    lemma_same_remainder(a, b);
    lemma_scrambled(x, y, seed, (a % 0x1_0000_0000) as u32);
    lemma_scrambled(u, v, other, (b % 0x1_0000_0000) as u32);
}

/// What the number of a point becomes.
spec fn scrambled(sum: u32) -> u8 {
    let h = ((sum ^ (sum >> 13)) * 1_274_126_177 % 0x1_0000_0000) as u32;
    ((h ^ (h >> 16)) & 0xff) as u8
}

proof fn lemma_scrambled(x: u32, y: u32, seed: u32, sum: u32)
    requires
        sum == (x * 374_761_393 + y * 668_265_263 + seed * 2_246_822_519) % 0x1_0000_0000,
    ensures
        effect::noise(x, y, seed) == scrambled(sum),
{
}

proof fn lemma_same_remainder(a: int, b: int)
    requires
        (a - b) % 0x1_0000_0000 == 0,
    ensures
        a % 0x1_0000_0000 == b % 0x1_0000_0000,
{
    vstd::arithmetic::div_mod::lemma_mod_equivalence(a, b, 0x1_0000_0000);
}

/// How it is scrambled: the number is folded onto itself by 13 bits and multiplied by an odd number,
/// which `1406485665` undoes; of the product, folded by 16 bits, the last byte is the noise.
pub proof fn law_noise_is_folded(x: u32, y: u32, seed: u32)
    ensures
        exists|sum: u32, h: u32|
            (374_761_393 * x + 668_265_263 * y + 2_246_822_519 * seed - sum) % 0x1_0000_0000 == 0 && (h
                * 1_406_485_665 - #[trigger] (sum ^ (sum >> 13))) % 0x1_0000_0000 == 0 && effect::noise(x, y, seed) == (
            #[trigger] (h ^ (h >> 16))) % 256,
{
    let all = x * 374_761_393 + y * 668_265_263 + seed * 2_246_822_519;
    let sum = (all % 0x1_0000_0000) as u32;
    let w = sum ^ (sum >> 13);
    let p = w * 1_274_126_177;
    let h = (p % 0x1_0000_0000) as u32;
    let k = p / 0x1_0000_0000;
    assert(p == 0x1_0000_0000 * k + h);
    assert(h * 1_406_485_665 - w == 0x1_0000_0000 * (w * 417_241_874 - k * 1_406_485_665)) by (nonlinear_arith)
        requires
            p == 0x1_0000_0000 * k + h,
            p == w * 1_274_126_177,
    ;
    vstd::arithmetic::div_mod::lemma_fundamental_div_mod_converse(
        h * 1_406_485_665 - w,
        0x1_0000_0000,
        w * 417_241_874 - k * 1_406_485_665,
        0,
    );
    let f = h ^ (h >> 16);
    assert(f & 0xff == f % 256) by (bit_vector);
    assert((374_761_393 * x + 668_265_263 * y + 2_246_822_519 * seed - sum) % 0x1_0000_0000 == 0);
}

} // verus!
