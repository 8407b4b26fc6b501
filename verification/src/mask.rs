//! Coverages of the pixels of a rectangle, from 0 for none to 255 for all, and what effects make of
//! them.
use crate::render;
use crate::text::{Glyph, GlyphBody};
use vstd::prelude::*;

verus! {

/// The coverage of each pixel of a rectangle, row by row.
pub ghost struct Cover {
    pub w: int,
    pub h: int,
    pub px: Seq<u8>,
}

impl Cover {
    /// The coverage `f` of each pixel.
    pub open spec fn new(w: int, h: int, f: spec_fn(int, int) -> u8) -> Cover {
        Cover { w, h, px: Seq::new((w * h) as nat, |i: int| f(i % w, i / w)) }
    }

    /// The coverage of a pixel; beside the rectangle there is none.
    pub open spec fn cell(self, x: int, y: int) -> u8 {
        if 0 <= x < self.w && 0 <= y < self.h {
            self.px[y * self.w + x]
        } else {
            0
        }
    }

    /// The coverage of the pixel of the rectangle that is nearest.
    pub open spec fn near(self, x: int, y: int) -> u8 {
        if self.w == 0 || self.h == 0 {
            0
        } else {
            self.cell(render::limited(x, 0, self.w - 1), render::limited(y, 0, self.h - 1))
        }
    }

    /// The sum of the nearest coverages of `n` pixels from `(x, y)` on, in steps of `(dx, dy)`.
    pub open spec fn run_sum(self, x: int, y: int, dx: int, dy: int, n: int) -> int
        decreases n,
    {
        if n <= 0 {
            0
        } else {
            self.run_sum(x, y, dx, dy, n - 1) + self.near(x + (n - 1) * dx, y + (n - 1) * dy)
        }
    }

    /// The mean along the row, up to `r` pixels to either side.
    pub open spec fn row_mean(self, x: int, y: int, r: int) -> u8 {
        (self.run_sum(x - r, y, 1, 0, 2 * r + 1) / (2 * r + 1)) as u8
    }

    /// The mean along the column, up to `r` pixels to either side.
    pub open spec fn column_mean(self, x: int, y: int, r: int) -> u8 {
        (self.run_sum(x, y - r, 0, 1, 2 * r + 1) / (2 * r + 1)) as u8
    }

    /// The mean of each pixel's row.
    pub open spec fn row_means(self, r: int) -> Cover {
        Cover::new(self.w, self.h, |x: int, y: int| self.row_mean(x, y, r))
    }

    /// The mean of each pixel's column.
    pub open spec fn column_means(self, r: int) -> Cover {
        Cover::new(self.w, self.h, |x: int, y: int| self.column_mean(x, y, r))
    }

    /// The coverage blurred: the means of the rows, and of them the means of the columns.
    pub open spec fn blur(self, r: int) -> Cover {
        if r == 0 {
            self
        } else {
            self.row_means(r).column_means(r)
        }
    }

    /// The least coverage of a pixel and of the four that are `d` away.
    pub open spec fn least(self, x: int, y: int, d: int) -> u8 {
        lesser(
            lesser(
                lesser(lesser(self.cell(x, y), self.near(x - d, y)), self.near(x + d, y)),
                self.near(x, y - d),
            ),
            self.near(x, y + d),
        )
    }

    /// The coverage eroded by `r` pixels, at least one.
    pub open spec fn erode(self, r: int) -> Cover {
        let d = if r < 1 {
            1
        } else {
            r
        };
        Cover::new(self.w, self.h, |x: int, y: int| self.least(x, y, d))
    }

    /// What the coverage is above another.
    pub open spec fn above(self, other: Cover) -> Cover {
        Cover {
            px: Seq::new(
                self.px.len(),
                |i: int|
                    if self.px[i] > other.px[i] {
                        (self.px[i] - other.px[i]) as u8
                    } else {
                        0
                    },
            ),
            ..self
        }
    }

    /// The coverage moved; what was beside the rectangle is empty.
    pub open spec fn shift(self, dx: int, dy: int) -> Cover {
        Cover::new(self.w, self.h, |x: int, y: int| self.cell(x - dx, y - dy))
    }

    /// Each coverage `num / den` as strong.
    pub open spec fn scale(self, num: int, den: int) -> Cover {
        Cover { px: self.px.map_values(|v: u8| (v * num / den) as u8), ..self }
    }

    /// The greater of the coverage and that of a glyph that is moved by `(dx, dy)`.
    pub open spec fn with_glyph(self, g: Glyph, dx: int, dy: int) -> Cover {
        Cover::new(
            self.w,
            self.h,
            |x: int, y: int| greater(self.cell(x, y), glyph_cover(g, x - g.x - dx, y - g.y - dy)),
        )
    }
}

pub open spec fn lesser(a: u8, b: u8) -> u8 {
    if b < a {
        b
    } else {
        a
    }
}

pub open spec fn greater(a: u8, b: u8) -> u8 {
    if b > a {
        b
    } else {
        a
    }
}

/// The coverage of a glyph's pixel, from its upper left corner: all or none of a bitmap's.
pub open spec fn glyph_cover(g: Glyph, x: int, y: int) -> u8 {
    match g.body {
        GlyphBody::Bits { bits, cell } => if render::bitmap_covers(bits, cell, 0, 0, x, y) {
            255
        } else {
            0
        },
        GlyphBody::Gray { gray, w, h, .. } => if 0 <= x < w && 0 <= y < h {
            gray@[y * w + x]
        } else {
            0
        },
    }
}

/// The coverage of each pixel of a rectangle, row by row.
pub struct Mask {
    pub w: u32,
    pub h: u32,
    pub px: Vec<u8>,
}

impl View for Mask {
    type V = Cover;

    open spec fn view(&self) -> Cover {
        Cover { w: self.w as int, h: self.h as int, px: self.px@ }
    }
}

/// The column and the row of the pixel `i`.
pub fn place_of(i: usize, w: u32, h: u32) -> (r: (u32, u32))
    requires
        i < w * h,
    ensures
        r.0 == i as int % w as int,
        r.1 == i as int / w as int,
        r.0 < w,
        r.1 < h,
{
    assert(w > 0) by (nonlinear_arith)
        requires
            0 <= i < w * h,
    ;
    proof {
        render::lemma_row_col(i as int, w as int, h as int);
    }
    ((i as u64 % w as u64) as u32, (i as u64 / w as u64) as u32)
}

impl Mask {
    /// Whether there is a coverage for each pixel.
    pub open spec fn wf(self) -> bool {
        self.px@.len() == self.w * self.h && self.w * self.h <= u32::MAX
    }

    /// No coverage.
    pub fn new(w: u32, h: u32) -> (r: Self)
        requires
            w * h <= u32::MAX,
        ensures
            r.wf(),
            r@ == Cover::new(w as int, h as int, |x: int, y: int| 0u8),
    {
        let n: usize = (w * h) as usize;
        let mut px: Vec<u8> = Vec::new();
        let mut i: usize = 0;
        while i < n
            invariant
                i <= n,
                px@.len() == i,
                forall|j: int| 0 <= j < i ==> px@[j] == 0,
            decreases n - i,
        {
            px.push(0);
            i = i + 1;
        }
        assert(px@ =~= Cover::new(w as int, h as int, |x: int, y: int| 0u8).px);
        Mask { w, h, px }
    }

    /// The coverage of a pixel; beside the rectangle there is none.
    pub fn get(&self, x: u32, y: u32) -> (r: u8)
        requires
            self.wf(),
        ensures
            r == self@.cell(x as int, y as int),
    {
        if x >= self.w || y >= self.h {
            return 0;
        }
        proof {
            render::lemma_place(x as int, y as int, self.w as int, self.h as int);
            assert(0 <= y * self.w <= y * self.w + x);
        }
        self.px[(y * self.w + x) as usize]
    }

    /// The coverage of the pixel of the rectangle that is nearest.
    pub fn clamped(&self, x: i64, y: i64) -> (r: u8)
        requires
            self.wf(),
        ensures
            r == self@.near(x as int, y as int),
    {
        if self.w == 0 || self.h == 0 {
            return 0;
        }
        self.get(clamp(x, self.w), clamp(y, self.h))
    }

    /// Sets the coverage of a pixel, if it is on the rectangle.
    pub fn put(&mut self, x: u32, y: u32, v: u8)
        requires
            old(self).wf(),
        ensures
            final(self).wf(),
            final(self).w == old(self).w,
            final(self).h == old(self).h,
            final(self).px@ == (if x < old(self).w && y < old(self).h {
                old(self).px@.update(y * old(self).w + x, v)
            } else {
                old(self).px@
            }),
    {
        if x < self.w && y < self.h {
            proof {
                render::lemma_place(x as int, y as int, self.w as int, self.h as int);
                assert(0 <= y * self.w <= y * self.w + x);
            }
            let i: usize = (y * self.w + x) as usize;
            self.px.set(i, v);
        }
    }

    /// The sum of the nearest coverages of `n` pixels.
    fn sum(&self, x: i64, y: i64, dx: i64, dy: i64, n: u64) -> (r: u64)
        requires
            self.wf(),
            -0x10_0000_0000 <= x <= 0x10_0000_0000,
            -0x10_0000_0000 <= y <= 0x10_0000_0000,
            (dx == 1 && dy == 0) || (dx == 0 && dy == 1),
            n <= 0x10_0000_0000,
        ensures
            r == self@.run_sum(x as int, y as int, dx as int, dy as int, n as int),
            r <= 255 * n,
    {
        let mut total: u64 = 0;
        let mut k: u64 = 0;
        while k < n
            invariant
                self.wf(),
                k <= n,
                n <= 0x10_0000_0000,
                -0x10_0000_0000 <= x <= 0x10_0000_0000,
                -0x10_0000_0000 <= y <= 0x10_0000_0000,
                (dx == 1 && dy == 0) || (dx == 0 && dy == 1),
                total == self@.run_sum(x as int, y as int, dx as int, dy as int, k as int),
                total <= 255 * k,
            decreases n - k,
        {
            let (sx, sy): (i64, i64) = if dx == 1 {
                (x + k as i64, y)
            } else {
                (x, y + k as i64)
            };
            proof {
                assert(dx == 1 ==> k * dx == k && k * dy == 0) by (nonlinear_arith)
                    requires
                        (dx == 1 && dy == 0) || (dx == 0 && dy == 1),
                ;
                assert(dx == 0 ==> k * dx == 0 && k * dy == k) by (nonlinear_arith)
                    requires
                        (dx == 1 && dy == 0) || (dx == 0 && dy == 1),
                ;
            }
            total = total + self.clamped(sx, sy) as u64;
            k = k + 1;
        }
        total
    }

    /// The mean of each pixel's row.
    fn row_pass(&self, r: u32) -> (m: Mask)
        requires
            self.wf(),
        ensures
            m.wf(),
            m@ == self@.row_means(r as int),
    {
        let n: usize = self.px.len();
        let window: u64 = 2 * r as u64 + 1;
        let mut px: Vec<u8> = Vec::new();
        while px.len() < n
            invariant
                self.wf(),
                n == self.px@.len(),
                px@.len() <= n,
                window == 2 * r + 1,
                forall|j: int|
                    0 <= j < px@.len() ==> px@[j] == self@.row_mean(
                        j % self.w as int,
                        j / self.w as int,
                        r as int,
                    ),
            decreases n - px@.len(),
        {
            let (x, y): (u32, u32) = place_of(px.len(), self.w, self.h);
            let total: u64 = self.sum(x as i64 - r as i64, y as i64, 1, 0, window);
            assert(total / window <= 255) by (nonlinear_arith)
                requires
                    total <= 255 * window,
                    window > 0,
            ;
            px.push((total / window) as u8);
        }
        assert(px@ =~= self@.row_means(r as int).px);
        Mask { w: self.w, h: self.h, px }
    }

    /// The mean of each pixel's column.
    fn column_pass(&self, r: u32) -> (m: Mask)
        requires
            self.wf(),
        ensures
            m.wf(),
            m@ == self@.column_means(r as int),
    {
        let n: usize = self.px.len();
        let window: u64 = 2 * r as u64 + 1;
        let mut px: Vec<u8> = Vec::new();
        while px.len() < n
            invariant
                self.wf(),
                n == self.px@.len(),
                px@.len() <= n,
                window == 2 * r + 1,
                forall|j: int|
                    0 <= j < px@.len() ==> px@[j] == self@.column_mean(
                        j % self.w as int,
                        j / self.w as int,
                        r as int,
                    ),
            decreases n - px@.len(),
        {
            let (x, y): (u32, u32) = place_of(px.len(), self.w, self.h);
            let total: u64 = self.sum(x as i64, y as i64 - r as i64, 0, 1, window);
            assert(total / window <= 255) by (nonlinear_arith)
                requires
                    total <= 255 * window,
                    window > 0,
            ;
            px.push((total / window) as u8);
        }
        assert(px@ =~= self@.column_means(r as int).px);
        Mask { w: self.w, h: self.h, px }
    }

    /// The coverage blurred over `r` pixels.
    pub fn blurred(&self, r: u32) -> (m: Mask)
        requires
            self.wf(),
        ensures
            m.wf(),
            m@ == self@.blur(r as int),
    {
        if r == 0 {
            let px = self.px.clone();
            assert(px@ =~= self.px@);
            return Mask { w: self.w, h: self.h, px };
        }
        self.row_pass(r).column_pass(r)
    }

    /// The coverage eroded by `r` pixels.
    pub fn eroded(&self, r: u32) -> (m: Mask)
        requires
            self.wf(),
        ensures
            m.wf(),
            m@ == self@.erode(r as int),
    {
        let d: i64 = if r == 0 {
            1
        } else {
            r as i64
        };
        let n: usize = self.px.len();
        let mut px: Vec<u8> = Vec::new();
        while px.len() < n
            invariant
                self.wf(),
                n == self.px@.len(),
                px@.len() <= n,
                1 <= d <= u32::MAX,
                forall|j: int|
                    0 <= j < px@.len() ==> px@[j] == self@.least(
                        j % self.w as int,
                        j / self.w as int,
                        d as int,
                    ),
            decreases n - px@.len(),
        {
            let (x, y): (u32, u32) = place_of(px.len(), self.w, self.h);
            let mut v: u8 = self.get(x, y);
            v = min(v, self.clamped(x as i64 - d, y as i64));
            v = min(v, self.clamped(x as i64 + d, y as i64));
            v = min(v, self.clamped(x as i64, y as i64 - d));
            v = min(v, self.clamped(x as i64, y as i64 + d));
            px.push(v);
        }
        assert(px@ =~= self@.erode(r as int).px);
        Mask { w: self.w, h: self.h, px }
    }

    /// What the coverage is above another of the same size.
    pub fn subtract(&self, other: &Mask) -> (m: Mask)
        requires
            self.wf(),
            other.wf(),
            self.w == other.w,
            self.h == other.h,
        ensures
            m.wf(),
            m@ == self@.above(other@),
    {
        let n: usize = self.px.len();
        let mut px: Vec<u8> = Vec::new();
        while px.len() < n
            invariant
                n == self.px@.len(),
                n == other.px@.len(),
                px@.len() <= n,
                forall|j: int| 0 <= j < px@.len() ==> px@[j] == self@.above(other@).px[j],
            decreases n - px@.len(),
        {
            let (a, b): (u8, u8) = (self.px[px.len()], other.px[px.len()]);
            px.push(
                if a > b {
                    a - b
                } else {
                    0
                },
            );
        }
        assert(px@ =~= self@.above(other@).px);
        Mask { w: self.w, h: self.h, px }
    }

    /// The coverage moved by `(dx, dy)`.
    pub fn shifted(&self, dx: i64, dy: i64) -> (m: Mask)
        requires
            self.wf(),
            -0x1_0000_0000 <= dx <= 0x1_0000_0000,
            -0x1_0000_0000 <= dy <= 0x1_0000_0000,
        ensures
            m.wf(),
            m@ == self@.shift(dx as int, dy as int),
    {
        let n: usize = self.px.len();
        let mut px: Vec<u8> = Vec::new();
        while px.len() < n
            invariant
                self.wf(),
                n == self.px@.len(),
                px@.len() <= n,
                -0x1_0000_0000 <= dx <= 0x1_0000_0000,
                -0x1_0000_0000 <= dy <= 0x1_0000_0000,
                forall|j: int|
                    0 <= j < px@.len() ==> px@[j] == self@.cell(
                        j % self.w as int - dx,
                        j / self.w as int - dy,
                    ),
            decreases n - px@.len(),
        {
            let (x, y): (u32, u32) = place_of(px.len(), self.w, self.h);
            let (sx, sy): (i64, i64) = (x as i64 - dx, y as i64 - dy);
            let v: u8 = if 0 <= sx && sx < self.w as i64 && 0 <= sy && sy < self.h as i64 {
                self.get(sx as u32, sy as u32)
            } else {
                0
            };
            px.push(v);
        }
        assert(px@ =~= self@.shift(dx as int, dy as int).px);
        Mask { w: self.w, h: self.h, px }
    }

    /// Each coverage `num / den` as strong.
    pub fn gain(&self, num: u32, den: u32) -> (m: Mask)
        requires
            self.wf(),
            num <= den,
            0 < den,
        ensures
            m.wf(),
            m@ == self@.scale(num as int, den as int),
    {
        let n: usize = self.px.len();
        let mut px: Vec<u8> = Vec::new();
        while px.len() < n
            invariant
                n == self.px@.len(),
                px@.len() <= n,
                num <= den,
                0 < den,
                forall|j: int|
                    0 <= j < px@.len() ==> px@[j] == (self.px@[j] * num as int / den as int) as u8,
            decreases n - px@.len(),
        {
            let v: u64 = self.px[px.len()] as u64;
            let (a, b): (u64, u64) = (num as u64, den as u64);
            assert(0 <= v * a <= 255 * b && v * a / (b as int) <= 255) by (nonlinear_arith)
                requires
                    0 <= v <= 255,
                    0 <= a <= b,
                    0 < b,
            ;
            px.push((v * a / b) as u8);
        }
        assert(px@ =~= self@.scale(num as int, den as int).px);
        Mask { w: self.w, h: self.h, px }
    }

    /// Adds a glyph that is moved by `(dx, dy)`: of two coverages the greater stays.
    pub fn raise_glyph(&mut self, g: &Glyph, dx: i64, dy: i64)
        requires
            old(self).wf(),
            g.body.wf(),
            -0x10_0000_0000 <= dx <= 0x10_0000_0000,
            -0x10_0000_0000 <= dy <= 0x10_0000_0000,
        ensures
            final(self).wf(),
            final(self)@ == old(self)@.with_glyph(*g, dx as int, dy as int),
    {
        let n: usize = self.px.len();
        let ghost before = self@;
        let mut i: usize = 0;
        while i < n
            invariant
                self.wf(),
                i <= n,
                n == self.px@.len(),
                self.w == before.w,
                self.h == before.h,
                before == old(self)@,
                before.px.len() == n,
                g.body.wf(),
                -0x10_0000_0000 <= dx <= 0x10_0000_0000,
                -0x10_0000_0000 <= dy <= 0x10_0000_0000,
                forall|j: int|
                    0 <= j < i ==> self.px@[j] == greater(
                        before.cell(j % before.w, j / before.w),
                        glyph_cover(*g, j % before.w - g.x - dx, j / before.w - g.y - dy),
                    ),
                forall|j: int| i <= j < n ==> self.px@[j] == before.px[j],
            decreases n - i,
        {
            let (x, y): (u32, u32) = place_of(i, self.w, self.h);
            let v: u8 = cover_of(g, x as i64 - g.x as i64 - dx, y as i64 - g.y as i64 - dy);
            proof {
                render::lemma_row_col(i as int, before.w, before.h);
            }
            if v > self.px[i] {
                self.px.set(i, v);
            }
            i = i + 1;
        }
        assert(self.px@ =~= before.with_glyph(*g, dx as int, dy as int).px);
    }
}

/// The nearest of the numbers below `n`.
fn clamp(x: i64, n: u32) -> (r: u32)
    requires
        n > 0,
    ensures
        r == render::limited(x as int, 0, n - 1),
{
    if x < 0 {
        0
    } else if x > n as i64 - 1 {
        n - 1
    } else {
        x as u32
    }
}

fn min(a: u8, b: u8) -> (r: u8)
    ensures
        r == lesser(a, b),
{
    if b < a {
        b
    } else {
        a
    }
}

/// The coverage of a glyph's pixel, from its upper left corner.
fn cover_of(g: &Glyph, x: i64, y: i64) -> (r: u8)
    requires
        g.body.wf(),
    ensures
        r == glyph_cover(*g, x as int, y as int),
{
    match &g.body {
        GlyphBody::Bits { bits, cell } => {
            if render::covers(bits, *cell, x, y) {
                255
            } else {
                0
            }
        },
        GlyphBody::Gray { gray, w, h, .. } => {
            if x < 0 || y < 0 || x >= *w as i64 || y >= *h as i64 {
                return 0;
            }
            proof {
                render::lemma_place(x as int, y as int, *w as int, *h as int);
                assert(0 <= y * *w <= y * *w + x);
            }
            gray[(y as u32 * *w + x as u32) as usize]
        },
    }
}

} // verus!
