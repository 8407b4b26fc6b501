//! A decoder for PNG pictures and APNG animations, for icons. The canvas and the number of frames
//! are limited, and whatever is cut off or out of bounds gives `None`. Interlaced pictures are not
//! read, and checksums are not looked at: the file is one of the user's own.
use crate::anim::{Animation, Frame};
use crate::bytes;
use crate::bytes::{be_u16, be_u32, copy};
use crate::inflate;
use crate::inflate::skip_zlib;
use vstd::prelude::*;

verus! {

/// The most pixels that a canvas has.
pub const MAX_PIXELS: u32 = 16_384;

/// The most frames that a file has.
pub const MAX_FRAMES: usize = 64;

/// The kinds of chunks that are read, as numbers: their four letters, the first highest.
pub const IHDR: u32 = 0x4948_4452;

pub const PLTE: u32 = 0x504c_5445;

pub const TRNS: u32 = 0x7452_4e53;

pub const ACTL: u32 = 0x6163_544c;

pub const IDAT: u32 = 0x4944_4154;

pub const FCTL: u32 = 0x6663_544c;

pub const FDAT: u32 = 0x6664_4154;

// ---- the chunks of the file ----

/// What the first chunk says of the picture.
#[derive(Clone, Copy)]
pub struct Header {
    pub w: u32,
    pub h: u32,
    /// Bits of a sample.
    pub depth: u8,
    /// The kind of color: 0 gray, 2 RGB, 3 palette, 4 gray with alpha, 6 RGB with alpha.
    pub color: u8,
    pub interlace: u8,
}

/// What a frame control chunk says: the rectangle of the frame, how long it is shown, what happens
/// to it then, and whether it replaces what is there or is laid over it.
#[derive(Clone, Copy)]
pub struct FrameCtl {
    pub x: u32,
    pub y: u32,
    pub w: u32,
    pub h: u32,
    /// Milliseconds.
    pub delay: u64,
    /// 1 clears the rectangle afterwards, 2 brings back what was there before, and anything else
    /// leaves the frame.
    pub dispose: u8,
    /// Whether the frame replaces what is there, transparent pixels included.
    pub source: bool,
}

/// The control that the 26 bytes at `at` write. A fraction of a second over 0 is one over 100.
pub open spec fn control_at(b: Seq<u8>, at: int) -> FrameCtl {
    let num = bytes::be16(b, at + 20);
    let den = bytes::be16(b, at + 22);
    FrameCtl {
        w: bytes::be32(b, at + 4) as u32,
        h: bytes::be32(b, at + 8) as u32,
        x: bytes::be32(b, at + 12) as u32,
        y: bytes::be32(b, at + 16) as u32,
        delay: (if den == 0 {
            num * 10
        } else {
            num * 1000 / den
        }) as u64,
        dispose: b[at + 24],
        source: b[at + 25] == 0,
    }
}

/// A frame of the file: its control, and its own data.
pub struct Part {
    pub ctl: FrameCtl,
    pub data: Seq<u8>,
}

/// What the chunks have said so far.
pub struct Scan {
    pub header: Option<Header>,
    pub palette: Seq<u8>,
    pub trns: Seq<u8>,
    pub idat: Seq<u8>,
    pub declared: u32,
    pub parts: Seq<Part>,
}

/// What is known before the first chunk.
pub open spec fn nothing() -> Scan {
    Scan {
        header: None,
        palette: Seq::<u8>::empty(),
        trns: Seq::<u8>::empty(),
        idat: Seq::<u8>::empty(),
        declared: 1,
        parts: Seq::<Part>::empty(),
    }
}

impl Scan {
    /// What is known after the chunk of the kind `kind` with the data from `lo` to `hi`; `None`
    /// where the chunk is damaged. Kinds that do not matter here change nothing.
    pub open spec fn with_chunk(self, b: Seq<u8>, kind: u32, lo: int, hi: int) -> Option<Scan> {
        let d = b.subrange(lo, hi);
        let n = hi - lo;
        if kind == IHDR && self.header is None && lo == 16 {
            if n != 13 {
                None
            } else {
                Some(
                    Scan {
                        header: Some(
                            Header {
                                w: bytes::be32(b, lo) as u32,
                                h: bytes::be32(b, lo + 4) as u32,
                                depth: b[lo + 8],
                                color: b[lo + 9],
                                interlace: b[lo + 12],
                            },
                        ),
                        ..self
                    },
                )
            }
        } else if kind == PLTE && self.parts.len() == 0 {
            Some(Scan { palette: d, ..self })
        } else if kind == TRNS && self.parts.len() == 0 {
            Some(Scan { trns: d, ..self })
        } else if kind == ACTL {
            if n != 8 || bytes::be32(b, lo) > MAX_FRAMES {
                None
            } else {
                Some(Scan { declared: bytes::be32(b, lo) as u32, ..self })
            }
        } else if kind == IDAT {
            if self.parts.len() <= 1 {
                Some(Scan { idat: self.idat + d, ..self })
            } else {
                Some(self)
            }
        } else if kind == FCTL {
            if n != 26 || self.parts.len() >= MAX_FRAMES {
                None
            } else {
                let part = Part { ctl: control_at(b, lo), data: Seq::<u8>::empty() };
                Some(Scan { parts: self.parts.push(part), ..self })
            }
        } else if kind == FDAT {
            if n < 4 || self.parts.len() == 0 {
                None
            } else {
                let last = self.parts.last();
                let part = Part { ctl: last.ctl, data: last.data + b.subrange(lo + 4, hi) };
                Some(Scan { parts: self.parts.drop_last().push(part), ..self })
            }
        } else {
            Some(self)
        }
    }
}

/// What the chunks from `at` on add to what is known: each has its length, its kind, its data and
/// four bytes of checksum. `None` where one runs over the end of the file.
pub open spec fn scanned(b: Seq<u8>, at: int, s: Scan) -> Option<Scan>
    decreases b.len() - at,
{
    if at + 12 > b.len() {
        Some(s)
    } else {
        let n = bytes::be32(b, at);
        if n < 0 || at + 12 + n > b.len() {
            None
        } else {
            match s.with_chunk(b, bytes::be32(b, at + 4) as u32, at + 8, at + 8 + n) {
                None => None,
                Some(t) => scanned(b, at + 12 + n, t),
            }
        }
    }
}

/// The eight bytes that a PNG begins with.
pub open spec fn signature() -> Seq<u8> {
    seq![0x89u8, 0x50, 0x4e, 0x47, 0x0d, 0x0a, 0x1a, 0x0a]
}

// ---- the pixels of a picture ----

/// How many samples a pixel has.
pub open spec fn channels(color: u8) -> Option<int> {
    if color == 0 || color == 3 {
        Some(1)
    } else if color == 2 {
        Some(3)
    } else if color == 4 {
        Some(2)
    } else if color == 6 {
        Some(4)
    } else {
        None
    }
}

/// Whether samples of this many bits are read: 8 and 16 for every kind of color, and fewer for gray
/// and palette.
pub open spec fn good_depth(color: u8, depth: u8) -> bool {
    ||| depth == 8 || depth == 16
    ||| (depth == 1 || depth == 2 || depth == 4) && (color == 0 || color == 3)
}

/// How the pixels of a picture are written.
pub struct Layout {
    pub depth: u8,
    pub color: u8,
    pub palette: Seq<u8>,
    pub trns: Seq<u8>,
}

/// The neighbour, of the one to the left, the one above and the one above to the left, that is
/// closest to left plus above minus above left.
pub open spec fn paeth_of(a: int, b: int, c: int) -> int {
    let p = a + b - c;
    let pa = if p >= a {
        p - a
    } else {
        a - p
    };
    let pb = if p >= b {
        p - b
    } else {
        b - p
    };
    let pc = if p >= c {
        p - c
    } else {
        c - p
    };
    if pa <= pb && pa <= pc {
        a
    } else if pb <= pc {
        b
    } else {
        c
    }
}

/// The byte at `i` of a row, 0 before its start and where there is no row.
pub open spec fn byte_or_zero(row: Seq<u8>, i: int) -> int {
    if 0 <= i < row.len() {
        row[i] as int
    } else {
        0
    }
}

/// What the filter `ft` predicts from the neighbours.
pub open spec fn predicted(ft: u8, a: int, b: int, c: int) -> int {
    if ft == 0 {
        0
    } else if ft == 1 {
        a
    } else if ft == 2 {
        b
    } else if ft == 3 {
        (a + b) / 2
    } else {
        paeth_of(a, b, c)
    }
}

/// The first `n` bytes of a row: what is written, plus what the filter predicts from the bytes
/// `bpp` to the left, above, and above left.
pub open spec fn unfiltered(ft: u8, cur: Seq<u8>, prev: Seq<u8>, bpp: int, n: int) -> Seq<u8>
    decreases n,
{
    if n <= 0 {
        Seq::<u8>::empty()
    } else {
        let row = unfiltered(ft, cur, prev, bpp, n - 1);
        let i = n - 1;
        let p = predicted(
            ft,
            byte_or_zero(row, i - bpp),
            byte_or_zero(prev, i),
            byte_or_zero(prev, i - bpp),
        );
        row.push(((cur[i] + p) % 256) as u8)
    }
}

impl Layout {
    /// Samples per pixel.
    pub open spec fn ch(self) -> int {
        channels(self.color)->0
    }

    /// Bytes of a row of `w` pixels.
    pub open spec fn row_bytes(self, w: int) -> int {
        (w * self.ch() * self.depth + 7) / 8
    }

    /// How far to the left the filters look: the bytes of a pixel, at least one.
    pub open spec fn bpp(self) -> int {
        if self.ch() * self.depth < 8 {
            1
        } else {
            self.ch() * self.depth / 8
        }
    }

    /// The first `n` rows. Each row is written as the kind of its filter and its bytes.
    pub open spec fn rows(self, raw: Seq<u8>, w: int, n: int) -> Seq<Seq<u8>>
        decreases n,
    {
        if n <= 0 {
            Seq::<Seq<u8>>::empty()
        } else {
            let above = self.rows(raw, w, n - 1);
            let need = self.row_bytes(w) + 1;
            let at = (n - 1) * need;
            let prev = if n == 1 {
                Seq::<u8>::empty()
            } else {
                above[n - 2]
            };
            above.push(
                unfiltered(
                    raw[at],
                    raw.subrange(at + 1, at + need),
                    prev,
                    self.bpp(),
                    self.row_bytes(w),
                ),
            )
        }
    }

    /// Whether the filters of the first `h` rows exist.
    pub open spec fn good_filters(self, raw: Seq<u8>, w: int, h: int) -> bool {
        forall|y: int| 0 <= y < h ==> #[trigger] raw[y * (self.row_bytes(w) + 1)] <= 4
    }

    /// The sample `j` of the pixel in the column `col`: the high byte of 16 bits, and fewer than 8
    /// bits as they are.
    pub open spec fn sample(self, row: Seq<u8>, col: int, j: int) -> u8 {
        if self.depth == 8 {
            row[col * self.ch() + j]
        } else if self.depth == 16 {
            row[col * self.ch() * 2 + j * 2]
        } else {
            let bit = col * self.depth;
            let shift = (8 - self.depth - bit % 8) as u8;
            let mask = if self.depth == 1 {
                1u8
            } else if self.depth == 2 {
                3
            } else {
                15
            };
            (row[bit / 8] >> shift) & mask
        }
    }

    /// The factor that brings a gray of fewer than 8 bits to the range of 8.
    pub open spec fn gray_scale(self) -> int {
        if self.depth == 1 {
            255
        } else if self.depth == 2 {
            85
        } else if self.depth == 4 {
            17
        } else {
            1
        }
    }

    /// The pixel in the column `col` as red, green, blue and alpha; `None` where its color is not
    /// in the palette.
    #[verifier::opaque]
    pub open spec fn pixel(self, row: Seq<u8>, col: int) -> Option<(u8, u8, u8, u8)> {
        let s0 = self.sample(row, col, 0);
        if self.color == 0 {
            let g = (s0 * self.gray_scale()) as u8;
            let a = if self.trns.len() >= 2 && self.trns[1] == g {
                0u8
            } else {
                255
            };
            Some((g, g, g, a))
        } else if self.color == 2 {
            Some((s0, self.sample(row, col, 1), self.sample(row, col, 2), 255u8))
        } else if self.color == 3 {
            if s0 * 3 + 2 >= self.palette.len() {
                None
            } else {
                let a = if s0 < self.trns.len() {
                    self.trns[s0 as int]
                } else {
                    255u8
                };
                Some(
                    (
                        self.palette[s0 * 3],
                        self.palette[s0 * 3 + 1],
                        self.palette[s0 * 3 + 2],
                        a,
                    ),
                )
            }
        } else if self.color == 4 {
            Some((s0, s0, s0, self.sample(row, col, 1)))
        } else {
            Some(
                (
                    s0,
                    self.sample(row, col, 1),
                    self.sample(row, col, 2),
                    self.sample(row, col, 3),
                ),
            )
        }
    }

    /// The bytes behind the filters: what the stream holds, where it holds all rows.
    pub open spec fn raw(self, z: Seq<u8>, w: int, h: int) -> Option<Seq<u8>> {
        let size = (self.row_bytes(w) + 1) * h;
        match inflate::unwrapped(z) {
            None => None,
            Some(s) => match inflate::inflated(s, size + 32) {
                None => None,
                Some(raw) => if raw.len() < size {
                    None
                } else {
                    Some(raw)
                },
            },
        }
    }

    /// Whether the stream holds a picture of `w` by `h` pixels.
    pub open spec fn has_picture(self, z: Seq<u8>, w: int, h: int) -> bool {
        &&& self.raw(z, w, h) is Some
        &&& self.good_filters(self.raw(z, w, h)->0, w, h)
        &&& forall|y: int, x: int|
            0 <= y < h && 0 <= x < w ==> (#[trigger] self.pixel(
                self.rows(self.raw(z, w, h)->0, w, h)[y],
                x,
            )) is Some
    }

    /// The RGBA bytes of the picture.
    pub open spec fn picture(self, z: Seq<u8>, w: int, h: int) -> Seq<u8> {
        let rows = self.rows(self.raw(z, w, h)->0, w, h);
        Seq::new(
            (w * h * 4) as nat,
            |k: int| component(self.pixel(rows[k / 4 / w], k / 4 % w)->0, k % 4),
        )
    }
}

/// A component of a pixel.
pub open spec fn component(p: (u8, u8, u8, u8), i: int) -> u8 {
    if i == 0 {
        p.0
    } else if i == 1 {
        p.1
    } else if i == 2 {
        p.2
    } else {
        p.3
    }
}

// ---- the frames on the canvas ----

/// The pixel `p` of RGBA bytes.
pub open spec fn pixel_of(rgba: Seq<u8>, p: int) -> (u8, u8, u8, u8) {
    (rgba[p * 4], rgba[p * 4 + 1], rgba[p * 4 + 2], rgba[p * 4 + 3])
}

/// A component of a pixel laid over another; `sa` and `da` are the alphas, and `a` that of both
/// together.
pub open spec fn over(dc: u8, sc: u8, sa: int, da: int, a: int) -> u8 {
    (((sc * sa + dc * da * (255 - sa) / 255) / a) % 256) as u8
}

/// A pixel of a frame on a pixel of the canvas.
pub open spec fn blended(dst: (u8, u8, u8, u8), src: (u8, u8, u8, u8), source: bool) -> (
    u8,
    u8,
    u8,
    u8,
) {
    let sa = src.3 as int;
    let da = dst.3 as int;
    let a = sa + da * (255 - sa) / 255;
    if source || sa == 255 {
        src
    } else if a == 0 {
        dst
    } else {
        (
            over(dst.0, src.0, sa, da, a),
            over(dst.1, src.1, sa, da, a),
            over(dst.2, src.2, sa, da, a),
            a as u8,
        )
    }
}

impl FrameCtl {
    /// Whether the rectangle is not empty and lies on a canvas of this size.
    pub open spec fn fits(self, w: int, h: int) -> bool {
        0 < self.w && 0 < self.h && self.x + self.w <= w && self.y + self.h <= h
    }

    /// Whether the pixel `p` of a canvas `w` wide is in the rectangle.
    pub open spec fn covers(self, w: int, p: int) -> bool {
        self.x <= p % w < self.x + self.w && self.y <= p / w < self.y + self.h
    }

    /// Which pixel of the frame lies on the pixel `p` of the canvas.
    pub open spec fn source_of(self, w: int, p: int) -> int {
        (p / w - self.y) * self.w + (p % w - self.x)
    }

    /// The canvas while the frame `sub` is shown.
    pub open spec fn shown(self, canvas: Seq<u8>, w: int, sub: Seq<u8>) -> Seq<u8> {
        Seq::new(
            canvas.len(),
            |k: int|
                if self.covers(w, k / 4) {
                    component(
                        blended(
                            pixel_of(canvas, k / 4),
                            pixel_of(sub, self.source_of(w, k / 4)),
                            self.source,
                        ),
                        k % 4,
                    )
                } else {
                    canvas[k]
                },
        )
    }

    /// The canvas after the frame's time is over.
    pub open spec fn after(self, canvas: Seq<u8>, w: int, sub: Seq<u8>) -> Seq<u8> {
        let shown = self.shown(canvas, w, sub);
        if self.dispose == 1 {
            Seq::new(
                shown.len(),
                |k: int|
                    if self.covers(w, k / 4) {
                        0u8
                    } else {
                        shown[k]
                    },
            )
        } else if self.dispose == 2 {
            canvas
        } else {
            shown
        }
    }
}

impl Scan {
    /// How the pixels are written.
    pub open spec fn layout(self) -> Layout {
        Layout {
            depth: self.header->0.depth,
            color: self.header->0.color,
            palette: self.palette,
            trns: self.trns,
        }
    }

    /// Whether the picture is one that is read.
    pub open spec fn good_header(self) -> bool {
        &&& self.header is Some
        &&& 0 < self.header->0.w
        &&& 0 < self.header->0.h
        &&& self.header->0.w * self.header->0.h <= MAX_PIXELS
        &&& self.header->0.interlace == 0
        &&& channels(self.header->0.color) is Some
        &&& good_depth(self.header->0.color, self.header->0.depth)
    }

    /// The data of the frame `k`; that of the first is the data of the default picture.
    pub open spec fn data_of(self, k: int) -> Seq<u8> {
        if k == 0 {
            self.idat
        } else {
            self.parts[k].data
        }
    }

    /// The pixels of the frame `k`.
    pub open spec fn sub(self, k: int) -> Seq<u8> {
        self.layout().picture(
            self.data_of(k),
            self.parts[k].ctl.w as int,
            self.parts[k].ctl.h as int,
        )
    }

    /// Whether the frame `k` lies on the canvas and can be read.
    pub open spec fn good_part(self, k: int) -> bool {
        &&& self.parts[k].ctl.fits(self.header->0.w as int, self.header->0.h as int)
        &&& self.layout().has_picture(
            self.data_of(k),
            self.parts[k].ctl.w as int,
            self.parts[k].ctl.h as int,
        )
    }

    /// The canvas on which the frame `n` is drawn; before the first it is transparent.
    pub open spec fn canvas_before(self, n: int) -> Seq<u8>
        decreases n,
    {
        let w = self.header->0.w as int;
        if n <= 0 {
            Seq::new((w * self.header->0.h * 4) as nat, |k: int| 0u8)
        } else {
            self.parts[n - 1].ctl.after(self.canvas_before(n - 1), w, self.sub(n - 1))
        }
    }

    /// Whether the file can be read: a picture without frames, or as many frames as were declared,
    /// each of them good.
    pub open spec fn good(self) -> bool {
        &&& self.good_header()
        &&& if self.parts.len() == 0 {
            self.layout().has_picture(
                self.idat,
                self.header->0.w as int,
                self.header->0.h as int,
            )
        } else {
            &&& self.declared <= 1 || self.parts.len() >= self.declared
            &&& forall|k: int| 0 <= k < self.parts.len() ==> #[trigger] self.good_part(k)
        }
    }

    /// What the decoder owes for the file: a still picture as a frame of one second, and else a
    /// frame for each of the file's, with the canvas as it is while that one is shown.
    pub open spec fn is_animation(self, a: Animation) -> bool {
        let w = self.header->0.w as int;
        let h = self.header->0.h as int;
        &&& a.width == w
        &&& a.height == h
        &&& if self.parts.len() == 0 {
            &&& a.frames@.len() == 1
            &&& a.frames@[0].delay == 1000
            &&& a.frames@[0].rgba@ == self.layout().picture(self.idat, w, h)
        } else {
            &&& a.frames@.len() == self.parts.len()
            &&& forall|k: int|
                0 <= k < self.parts.len() ==> (#[trigger] a.frames@[k]).delay
                    == self.parts[k].ctl.delay && a.frames@[k].rgba@ == self.parts[k].ctl.shown(
                    self.canvas_before(k),
                    w,
                    self.sub(k),
                )
        }
    }
}

/// What the file holds; `None` where it does not begin as a PNG does or a chunk is damaged.
pub open spec fn file_scan(b: Seq<u8>) -> Option<Scan> {
    if b.len() < 33 || b.subrange(0, 8) != signature() {
        None
    } else {
        scanned(b, 8, nothing())
    }
}

// ---- the decoder ----

/// How many samples a pixel has.
fn channels_of(color: u8) -> (r: Option<usize>)
    ensures
        match channels(color) {
            Some(n) => r == Some(n as usize),
            None => r is None,
        },
{
    match color {
        0 | 3 => Some(1),
        2 => Some(3),
        4 => Some(2),
        6 => Some(4),
        _ => None,
    }
}

/// Whether samples of this many bits are read.
fn supported_depth(color: u8, depth: u8) -> (r: bool)
    ensures
        r == good_depth(color, depth),
{
    match depth {
        8 | 16 => true,
        1 | 2 | 4 => color == 0 || color == 3,
        _ => false,
    }
}

impl FrameCtl {
    /// The control that 26 bytes write.
    fn parse(b: &[u8], at: usize) -> (r: Self)
        requires
            at + 26 <= b.len(),
        ensures
            r == control_at(b@, at as int),
    {
        let num: u64 = be_u16(b, at + 20) as u64;
        let den: u64 = be_u16(b, at + 22) as u64;
        FrameCtl {
            w: be_u32(b, at + 4),
            h: be_u32(b, at + 8),
            x: be_u32(b, at + 12),
            y: be_u32(b, at + 16),
            delay: if den == 0 {
                num * 10
            } else {
                num * 1000 / den
            },
            dispose: b[at + 24],
            source: b[at + 25] == 0,
        }
    }
}

/// A frame of the file as it is read.
struct ReadPart {
    ctl: FrameCtl,
    data: Vec<u8>,
}

/// What the chunks have said so far.
struct Chunks {
    header: Option<Header>,
    palette: Vec<u8>,
    trns: Vec<u8>,
    idat: Vec<u8>,
    declared: u32,
    parts: Vec<ReadPart>,
}

spec fn parts_of(v: Seq<ReadPart>) -> Seq<Part> {
    Seq::new(v.len(), |i: int| Part { ctl: v[i].ctl, data: v[i].data@ })
}

impl Chunks {
    spec fn scan(self) -> Scan {
        Scan {
            header: self.header,
            palette: self.palette@,
            trns: self.trns@,
            idat: self.idat@,
            declared: self.declared,
            parts: parts_of(self.parts@),
        }
    }

    /// Takes over what a chunk says; `false` where it is damaged.
    fn chunk(&mut self, b: &[u8], kind: u32, lo: usize, hi: usize) -> (r: bool)
        requires
            lo <= hi <= b.len(),
        ensures
            match old(self).scan().with_chunk(b@, kind, lo as int, hi as int) {
                Some(s) => r && final(self).scan() == s,
                None => !r,
            },
    {
        let n: usize = hi - lo;
        assert(parts_of(self.parts@).len() == self.parts@.len());
        if kind == IHDR && self.header.is_none() && lo == 16 {
            if n != 13 {
                return false;
            }
            self.header = Some(
                Header {
                    w: be_u32(b, lo),
                    h: be_u32(b, lo + 4),
                    depth: b[lo + 8],
                    color: b[lo + 9],
                    interlace: b[lo + 12],
                },
            );
            true
        } else if kind == PLTE && self.parts.len() == 0 {
            self.palette = copy(b, lo, hi);
            true
        } else if kind == TRNS && self.parts.len() == 0 {
            self.trns = copy(b, lo, hi);
            true
        } else if kind == ACTL {
            if n != 8 {
                return false;
            }
            let count: u32 = be_u32(b, lo);
            if count > MAX_FRAMES as u32 {
                return false;
            }
            self.declared = count;
            true
        } else if kind == IDAT {
            if self.parts.len() <= 1 {
                let mut d = copy(b, lo, hi);
                self.idat.append(&mut d);
            }
            true
        } else if kind == FCTL {
            if n != 26 || self.parts.len() >= MAX_FRAMES {
                return false;
            }
            let part = ReadPart { ctl: FrameCtl::parse(b, lo), data: Vec::new() };
            let ghost before = self.parts@;
            let ghost p = part;
            self.parts.push(part);
            proof {
                assert(p.data@ =~= Seq::<u8>::empty());
                assert(parts_of(self.parts@) =~= parts_of(before).push(
                    Part { ctl: p.ctl, data: p.data@ },
                ));
            }
            true
        } else if kind == FDAT {
            if n < 4 {
                return false;
            }
            let ghost before = self.parts@;
            match self.parts.pop() {
                None => false,
                Some(last) => {
                    let mut data = last.data;
                    let mut d = copy(b, lo + 4, hi);
                    data.append(&mut d);
                    let part = ReadPart { ctl: last.ctl, data };
                    let ghost p = part;
                    self.parts.push(part);
                    proof {
                        assert(parts_of(self.parts@) =~= parts_of(before).drop_last().push(
                            Part { ctl: p.ctl, data: p.data@ },
                        ));
                    }
                    true
                },
            }
        } else {
            true
        }
    }
}

/// Reads the chunks of the file.
fn read_chunks(b: &[u8]) -> (r: Option<Chunks>)
    ensures
        match scanned(b@, 8, nothing()) {
            Some(s) => r matches Some(c) && c.scan() == s,
            None => r is None,
        },
{
    let mut c = Chunks {
        header: None,
        palette: Vec::new(),
        trns: Vec::new(),
        idat: Vec::new(),
        declared: 1,
        parts: Vec::new(),
    };
    proof {
        let s = c.scan();
        assert(s.palette =~= nothing().palette && s.trns =~= nothing().trns && s.idat
            =~= nothing().idat && s.parts =~= nothing().parts);
    }
    let mut at: usize = 8;
    while at <= b.len() && b.len() - at >= 12
        invariant
            scanned(b@, 8, nothing()) == scanned(b@, at as int, c.scan()),
        decreases b.len() - at,
    {
        let n: usize = be_u32(b, at) as usize;
        if n > b.len() - at - 12 {
            return None;
        }
        let kind: u32 = be_u32(b, at + 4);
        if !c.chunk(b, kind, at + 8, at + 8 + n) {
            return None;
        }
        at = at + 12 + n;
    }
    Some(c)
}

/// How the pixels of the file are written.
struct Format<'a> {
    depth: u8,
    color: u8,
    ch: usize,
    palette: &'a [u8],
    trns: &'a [u8],
}

impl<'a> Format<'a> {
    spec fn layout(self) -> Layout {
        Layout {
            depth: self.depth,
            color: self.color,
            palette: self.palette@,
            trns: self.trns@,
        }
    }

    spec fn wf(self) -> bool {
        &&& channels(self.color) == Some(self.ch as int)
        &&& good_depth(self.color, self.depth)
    }
}

/// The neighbour that is closest to what the three together point to.
fn paeth(a: i32, b: i32, c: i32) -> (r: i32)
    requires
        0 <= a <= 255,
        0 <= b <= 255,
        0 <= c <= 255,
    ensures
        r == paeth_of(a as int, b as int, c as int),
        0 <= r <= 255,
{
    let p: i32 = a + b - c;
    let pa: i32 = if p >= a {
        p - a
    } else {
        a - p
    };
    let pb: i32 = if p >= b {
        p - b
    } else {
        b - p
    };
    let pc: i32 = if p >= c {
        p - c
    } else {
        c - p
    };
    if pa <= pb && pa <= pc {
        a
    } else if pb <= pc {
        b
    } else {
        c
    }
}

/// A row without its filter.
fn unfilter(ft: u8, cur: &[u8], prev: &[u8], bpp: usize) -> (r: Option<Vec<u8>>)
    requires
        bpp >= 1,
    ensures
        ft <= 4 ==> (r matches Some(v) && v@ == unfiltered(
            ft,
            cur@,
            prev@,
            bpp as int,
            cur@.len() as int,
        )),
        ft > 4 ==> r is None,
{
    if ft > 4 {
        return None;
    }
    let mut dst: Vec<u8> = Vec::new();
    let mut i: usize = 0;
    while i < cur.len()
        invariant
            i <= cur@.len(),
            ft <= 4,
            bpp >= 1,
            dst@.len() == i,
            dst@ == unfiltered(ft, cur@, prev@, bpp as int, i as int),
        decreases cur@.len() - i,
    {
        let a: u8 = if i >= bpp {
            dst[i - bpp]
        } else {
            0
        };
        let b: u8 = if i < prev.len() {
            prev[i]
        } else {
            0
        };
        let c: u8 = if i >= bpp && i - bpp < prev.len() {
            prev[i - bpp]
        } else {
            0
        };
        let p: u32 = if ft == 0 {
            0
        } else if ft == 1 {
            a as u32
        } else if ft == 2 {
            b as u32
        } else if ft == 3 {
            (a as u32 + b as u32) / 2
        } else {
            paeth(a as i32, b as i32, c as i32) as u32
        };
        let v: u8 = ((cur[i] as u32 + p) % 256) as u8;
        dst.push(v);
        i = i + 1;
    }
    Some(dst)
}

/// The layout's rows have the right lengths.
proof fn lemma_rows(l: Layout, raw: Seq<u8>, w: int, n: int)
    requires
        n >= 0,
        l.row_bytes(w) >= 0,
    ensures
        l.rows(raw, w, n).len() == n,
        forall|y: int|
            0 <= y < n ==> (#[trigger] l.rows(raw, w, n)[y]).len() == l.row_bytes(w),
        forall|m: int|
            0 <= m <= n ==> (#[trigger] l.rows(raw, w, m)) == l.rows(raw, w, n).take(m),
    decreases n,
{
    if n > 0 {
        lemma_rows(l, raw, w, n - 1);
        let above = l.rows(raw, w, n - 1);
        let all = l.rows(raw, w, n);
        let need = l.row_bytes(w) + 1;
        let at = (n - 1) * need;
        let prev = if n == 1 {
            Seq::<u8>::empty()
        } else {
            above[n - 2]
        };
        lemma_unfiltered_len(
            raw[at],
            raw.subrange(at + 1, at + need),
            prev,
            l.bpp(),
            l.row_bytes(w),
        );
        assert forall|y: int| 0 <= y < n implies (#[trigger] all[y]).len() == l.row_bytes(w) by {
            if y < n - 1 {
                assert(all[y] == above[y]);
            }
        }
        assert forall|m: int| 0 <= m <= n implies (#[trigger] l.rows(raw, w, m)) == all.take(m) by {
            if m < n {
                assert(l.rows(raw, w, m) == above.take(m));
                assert(all.take(m) =~= above.take(m));
            } else {
                assert(all.take(n) =~= all);
            }
        }
    } else {
        assert(l.rows(raw, w, 0).take(0) =~= l.rows(raw, w, 0));
    }
}

proof fn lemma_unfiltered_len(ft: u8, cur: Seq<u8>, prev: Seq<u8>, bpp: int, n: int)
    requires
        n >= 0,
    ensures
        unfiltered(ft, cur, prev, bpp, n).len() == n,
    decreases n,
{
    if n > 0 {
        lemma_unfiltered_len(ft, cur, prev, bpp, n - 1);
    }
}

/// A pixel lies inside its row.
proof fn lemma_sample_in_row(l: Layout, w: int, col: int)
    requires
        channels(l.color) is Some,
        good_depth(l.color, l.depth),
        0 <= col < w,
    ensures
        l.depth == 8 ==> l.row_bytes(w) == w * l.ch() && col * l.ch() + l.ch() <= w * l.ch(),
        l.depth == 16 ==> l.row_bytes(w) == w * l.ch() * 2 && col * l.ch() * 2 + l.ch() * 2 <= w
            * l.ch() * 2,
        l.depth < 8 ==> l.ch() == 1 && (col * l.depth) / 8 < l.row_bytes(w) && l.depth + (col
            * l.depth) % 8 <= 8,
        1 <= l.ch() <= 4,
        l.row_bytes(w) >= 1,
{
    let ch = l.ch();
    assert(col * ch + ch <= w * ch) by (nonlinear_arith)
        requires
            0 <= col < w,
            1 <= ch <= 4,
    ;
    assert(w * ch >= 1) by (nonlinear_arith)
        requires
            w >= 1,
            ch >= 1,
    ;
    if l.depth == 8 {
        assert(w * ch * l.depth == (w * ch) * 8);
    } else if l.depth == 16 {
        assert(w * ch * l.depth == (w * ch) * 16);
    } else {
        assert(ch == 1);
        assert(w * ch == w) by (nonlinear_arith)
            requires
                ch == 1,
        ;
        assert(w * ch * l.depth == w * l.depth);
        let d = l.depth as int;
        assert(d == 1 || d == 2 || d == 4);
        assert(w * d == (if d == 1 {
            w
        } else if d == 2 {
            w * 2
        } else {
            w * 4
        }) && col * d == (if d == 1 {
            col
        } else if d == 2 {
            col * 2
        } else {
            col * 4
        })) by (nonlinear_arith)
            requires
                d == 1 || d == 2 || d == 4,
        ;
        assert(l.row_bytes(w) == (w * d + 7) / 8);
    }
}

impl<'a> Format<'a> {
    /// Bytes of a row of `w` pixels.
    fn row_len(&self, w: u32) -> (r: usize)
        requires
            self.wf(),
            1 <= w <= MAX_PIXELS,
        ensures
            r == self.layout().row_bytes(w as int),
            1 <= r <= 131_072,
    {
        proof {
            lemma_sample_in_row(self.layout(), w as int, 0);
        }
        assert(w * self.ch <= 65_536) by (nonlinear_arith)
            requires
                w <= 16_384,
                self.ch <= 4,
        ;
        let n: usize = w as usize * self.ch;
        assert(n * self.depth <= 1_048_576) by (nonlinear_arith)
            requires
                n <= 65_536,
                self.depth <= 16,
        ;
        (n * self.depth as usize + 7) / 8
    }

    /// The sample `j` of the pixel in the column `col`.
    fn sample(&self, row: &Vec<u8>, w: u32, col: usize, j: usize) -> (r: u8)
        requires
            self.wf(),
            col < w <= MAX_PIXELS,
            j < self.ch,
            row@.len() == self.layout().row_bytes(w as int),
        ensures
            r == self.layout().sample(row@, col as int, j as int),
            self.depth == 1 ==> r <= 1,
            self.depth == 2 ==> r <= 3,
            self.depth == 4 ==> r <= 15,
    {
        proof {
            lemma_sample_in_row(self.layout(), w as int, col as int);
            assert(col * self.ch <= 65_536) by (nonlinear_arith)
                requires
                    col <= 16_384,
                    self.ch <= 4,
            ;
        }
        if self.depth == 8 {
            row[col * self.ch + j]
        } else if self.depth == 16 {
            row[col * self.ch * 2 + j * 2]
        } else {
            assert(col * self.depth <= 65_536) by (nonlinear_arith)
                requires
                    col <= 16_384,
                    self.depth <= 4,
            ;
            let bit: usize = col * self.depth as usize;
            let shift: u8 = 8 - self.depth - (bit % 8) as u8;
            let mask: u8 = if self.depth == 1 {
                1
            } else if self.depth == 2 {
                3
            } else {
                15
            };
            let byte: u8 = row[bit / 8];
            assert((byte >> shift) & mask <= mask) by (bit_vector)
                requires
                    shift < 8,
            ;
            (byte >> shift) & mask
        }
    }

    /// The pixel in the column `col`.
    fn pixel(&self, row: &Vec<u8>, w: u32, col: usize) -> (r: Option<(u8, u8, u8, u8)>)
        requires
            self.wf(),
            col < w <= MAX_PIXELS,
            row@.len() == self.layout().row_bytes(w as int),
        ensures
            r == self.layout().pixel(row@, col as int),
    {
        reveal(Layout::pixel);
        let s0: u8 = self.sample(row, w, col, 0);
        if self.color == 0 {
            let scale: u32 = if self.depth == 1 {
                255
            } else if self.depth == 2 {
                85
            } else if self.depth == 4 {
                17
            } else {
                1
            };
            assert(s0 * scale <= 255) by {
                if self.depth == 1 {
                } else if self.depth == 2 {
                } else if self.depth == 4 {
                }
            }
            let g: u8 = (s0 as u32 * scale) as u8;
            let a: u8 = if self.trns.len() >= 2 && self.trns[1] == g {
                0
            } else {
                255
            };
            Some((g, g, g, a))
        } else if self.color == 2 {
            Some((s0, self.sample(row, w, col, 1), self.sample(row, w, col, 2), 255))
        } else if self.color == 3 {
            let at: usize = s0 as usize * 3;
            if at + 2 >= self.palette.len() {
                return None;
            }
            let a: u8 = if (s0 as usize) < self.trns.len() {
                self.trns[s0 as usize]
            } else {
                255
            };
            Some((self.palette[at], self.palette[at + 1], self.palette[at + 2], a))
        } else if self.color == 4 {
            Some((s0, s0, s0, self.sample(row, w, col, 1)))
        } else {
            Some(
                (
                    s0,
                    self.sample(row, w, col, 1),
                    self.sample(row, w, col, 2),
                    self.sample(row, w, col, 3),
                ),
            )
        }
    }
}

/// The rows of a picture.
fn read_rows(raw: &Vec<u8>, w: u32, h: u32, f: &Format<'_>) -> (r: Option<Vec<Vec<u8>>>)
    requires
        f.wf(),
        1 <= w <= MAX_PIXELS,
        1 <= h <= MAX_PIXELS,
        raw@.len() >= (f.layout().row_bytes(w as int) + 1) * h,
    ensures
        r is Some <==> f.layout().good_filters(raw@, w as int, h as int),
        r matches Some(v) ==> v@.len() == h && crate::strings::rows(v@) == f.layout().rows(
            raw@,
            w as int,
            h as int,
        ),
{
    let n: usize = f.row_len(w);
    let need: usize = n + 1;
    assert(f.ch * f.depth <= 64) by (nonlinear_arith)
        requires
            f.ch <= 4,
            f.depth <= 16,
    ;
    let bpp: usize = if f.ch * (f.depth as usize) < 8 {
        1
    } else {
        f.ch * f.depth as usize / 8
    };
    let ghost l = f.layout();
    let ghost wi = w as int;
    let mut out: Vec<Vec<u8>> = Vec::new();
    let mut y: usize = 0;
    assert(crate::strings::rows(out@) =~= l.rows(raw@, wi, 0));
    while y < h as usize
        invariant
            y <= h,
            f.wf(),
            l == f.layout(),
            wi == w,
            need == n + 1,
            n == l.row_bytes(wi),
            1 <= n <= 131_072,
            bpp == l.bpp(),
            bpp >= 1,
            raw@.len() >= need * h,
            1 <= h <= MAX_PIXELS,
            out@.len() == y,
            crate::strings::rows(out@) == l.rows(raw@, wi, y as int),
            forall|k: int| 0 <= k < y ==> #[trigger] raw@[k * (l.row_bytes(wi) + 1)] <= 4,
        decreases h - y,
    {
        assert((y + 1) * need <= need * h) by (nonlinear_arith)
            requires
                y < h,
                need >= 1,
        ;
        assert(y * need <= 16_384 * 131_073) by (nonlinear_arith)
            requires
                y <= 16_384,
                need <= 131_073,
        ;
        assert((y + 1) * need == y * need + need) by (nonlinear_arith);
        assert(raw.len() == raw@.len());
        let at: usize = y * need;
        let ft: u8 = raw[at];
        assert(ft == raw@[y * (l.row_bytes(wi) + 1)]);
        let empty: Vec<u8> = Vec::new();
        assert(empty@ =~= Seq::<u8>::empty());
        let prev: &Vec<u8> = if y == 0 {
            &empty
        } else {
            &out[y - 1]
        };
        proof {
            if y > 0 {
                assert(crate::strings::rows(out@)[y - 1] == out@[y - 1]@);
            }
        }
        let row = match unfilter(ft, &raw[at + 1..at + need], prev, bpp) {
            Some(v) => v,
            None => {
                return None;
            },
        };
        let ghost before = crate::strings::rows(out@);
        let ghost new = row@;
        out.push(row);
        y = y + 1;
        assert(crate::strings::rows(out@) =~= before.push(new));
        assert(l.rows(raw@, wi, y as int) == before.push(new));
    }
    Some(out)
}

/// The RGBA bytes of a picture of `w` by `h` pixels in the stream `z`.
fn decode_subimage(z: &[u8], w: u32, h: u32, f: &Format<'_>) -> (r: Option<Vec<u8>>)
    requires
        f.wf(),
        1 <= w,
        1 <= h,
        w * h <= MAX_PIXELS,
    ensures
        r is Some <==> f.layout().has_picture(z@, w as int, h as int),
        r matches Some(v) ==> v@ == f.layout().picture(z@, w as int, h as int) && v@.len() == w * h
            * 4,
{
    assert(w <= MAX_PIXELS && h <= MAX_PIXELS) by (nonlinear_arith)
        requires
            1 <= w,
            1 <= h,
            w * h <= MAX_PIXELS,
    ;
    let ghost l = f.layout();
    let ghost wi = w as int;
    let ghost hi = h as int;
    let n: usize = f.row_len(w);
    assert((n + 1) * h <= 131_073 * 16_384) by (nonlinear_arith)
        requires
            n <= 131_072,
            h <= 16_384,
    ;
    let size: usize = (n + 1) * h as usize;
    let stream = match skip_zlib(z) {
        Some(s) => s,
        None => {
            return None;
        },
    };
    let raw = match inflate::inflate(stream, size + 32) {
        Some(v) => v,
        None => {
            return None;
        },
    };
    if raw.len() < size {
        return None;
    }
    assert(l.raw(z@, wi, hi) == Some(raw@));
    let rows = match read_rows(&raw, w, h, f) {
        Some(v) => v,
        None => {
            return None;
        },
    };
    let ghost spec_rows = l.rows(raw@, wi, hi);
    proof {
        lemma_rows(l, raw@, wi, hi);
        assert forall|y: int| 0 <= y < hi implies (#[trigger] rows@[y])@ == spec_rows[y] by {
            assert(crate::strings::rows(rows@)[y] == rows@[y]@);
        }
    }
    let total: usize = w as usize * h as usize;
    let mut rgba: Vec<u8> = Vec::new();
    let ghost goal = l.picture(z@, wi, hi);
    let mut i: usize = 0;
    while i < total
        invariant
            i <= total,
            total == w * h,
            f.wf(),
            l == f.layout(),
            wi == w,
            hi == h,
            1 <= w <= MAX_PIXELS,
            1 <= h,
            total <= MAX_PIXELS,
            l.raw(z@, wi, hi) == Some(raw@),
            spec_rows == l.rows(raw@, wi, hi),
            goal == l.picture(z@, wi, hi),
            rows@.len() == h,
            forall|y: int|
                0 <= y < hi ==> (#[trigger] rows@[y])@ == spec_rows[y] && rows@[y]@.len()
                    == l.row_bytes(wi),
            rgba@.len() == i * 4,
            forall|k: int| 0 <= k < i * 4 ==> #[trigger] rgba@[k] == goal[k],
            forall|p: int|
                0 <= p < i ==> (#[trigger] l.pixel(spec_rows[p / wi], p % wi)) is Some,
        decreases total - i,
    {
        let y: usize = i / w as usize;
        let x: usize = i % w as usize;
        assert(y < h) by (nonlinear_arith)
            requires
                i < w * h,
                y == i as int / w as int,
                w >= 1,
        ;
        let row = &rows[y];
        match f.pixel(row, w, x) {
            None => {
                assert(l.pixel(spec_rows[y as int], x as int) is None);
                return None;
            },
            Some(p) => {
                assert(l.pixel(spec_rows[i as int / wi], i as int % wi) == Some(p));
                rgba.push(p.0);
                rgba.push(p.1);
                rgba.push(p.2);
                rgba.push(p.3);
                proof {
                    assert forall|k: int| i * 4 <= k < i * 4 + 4 implies #[trigger] rgba@[k]
                        == goal[k] by {
                        assert(k / 4 == i as int);
                        assert(k % 4 == k - i * 4);
                    }
                }
            },
        }
        i = i + 1;
    }
    proof {
        assert forall|y: int, x: int| 0 <= y < hi && 0 <= x < wi implies (#[trigger] l.pixel(
            spec_rows[y],
            x,
        )) is Some by {
            let p = y * wi + x;
            assert(0 <= p < wi * hi && p / wi == y && p % wi == x) by {
                assert(0 <= y * wi) by (nonlinear_arith)
                    requires
                        y >= 0,
                        wi >= 1,
                ;
                assert(p < wi * hi) by (nonlinear_arith)
                    requires
                        p == y * wi + x,
                        x < wi,
                        y < hi,
                        wi >= 1,
                ;
                vstd::arithmetic::div_mod::lemma_fundamental_div_mod_converse(p, wi, y, x);
            }
            assert(l.pixel(spec_rows[p / wi], p % wi) is Some);
        }
        assert(rgba@ =~= goal);
    }
    Some(rgba)
}

/// A component of a pixel laid over another.
fn mix(dc: u8, sc: u8, sa: u32, da: u32, a: u32) -> (r: u8)
    requires
        sa <= 255,
        da <= 255,
        a > 0,
    ensures
        r == over(dc, sc, sa as int, da as int, a as int),
{
    assert(sc * sa <= 65_025) by (nonlinear_arith)
        requires
            sc <= 255,
            sa <= 255,
    ;
    assert(dc * da <= 65_025) by (nonlinear_arith)
        requires
            dc <= 255,
            da <= 255,
    ;
    assert(dc * da * (255 - sa) <= 16_581_375) by (nonlinear_arith)
        requires
            dc * da <= 65_025,
            0 <= sa <= 255,
            0 <= dc * da,
    ;
    (((sc as u32 * sa + dc as u32 * da * (255 - sa) / 255) / a) % 256) as u8
}

/// A pixel of a frame on a pixel of the canvas.
fn blend_pixel(dst: (u8, u8, u8, u8), src: (u8, u8, u8, u8), source: bool) -> (r: (u8, u8, u8, u8))
    ensures
        r == blended(dst, src, source),
{
    if source || src.3 == 255 {
        return src;
    }
    let sa: u32 = src.3 as u32;
    let da: u32 = dst.3 as u32;
    assert(da * (255 - sa) <= 255 * (255 - sa)) by (nonlinear_arith)
        requires
            da <= 255,
            sa <= 255,
    ;
    assert(da * (255 - sa) >= 0) by (nonlinear_arith)
        requires
            sa <= 255,
    ;
    let a: u32 = sa + da * (255 - sa) / 255;
    if a == 0 {
        return dst;
    }
    (
        mix(dst.0, src.0, sa, da, a),
        mix(dst.1, src.1, sa, da, a),
        mix(dst.2, src.2, sa, da, a),
        a as u8,
    )
}

/// Which pixel of the frame lies on a pixel of the canvas is a pixel of the frame.
proof fn lemma_source(c: FrameCtl, w: int, h: int, p: int)
    requires
        c.fits(w, h),
        c.covers(w, p),
    ensures
        0 <= c.source_of(w, p) < c.w * c.h,
{
    let x = p % w - c.x;
    let y = p / w - c.y;
    assert(0 <= y * c.w + x < c.w * c.h) by (nonlinear_arith)
        requires
            0 <= x < c.w,
            0 <= y < c.h,
    ;
}

/// Lays the frame `sub` on the canvas.
fn blend(canvas: &mut Vec<u8>, w: u32, h: u32, c: &FrameCtl, sub: &Vec<u8>)
    requires
        w > 0,
        w * h <= MAX_PIXELS,
        c.fits(w as int, h as int),
        old(canvas)@.len() == w * h * 4,
        sub@.len() == c.w * c.h * 4,
    ensures
        final(canvas)@ == c.shown(old(canvas)@, w as int, sub@),
{
    let ghost start = canvas@;
    let ghost goal = c.shown(start, w as int, sub@);
    assert(c.w * c.h <= w * h) by (nonlinear_arith)
        requires
            c.w <= w,
            c.h <= h,
    ;
    let total: usize = w as usize * h as usize;
    let mut p: usize = 0;
    while p < total
        invariant
            p <= total,
            total == w * h,
            w > 0,
            total <= MAX_PIXELS,
            c.w * c.h <= total,
            c.fits(w as int, h as int),
            canvas@.len() == total * 4,
            start.len() == total * 4,
            sub@.len() == c.w * c.h * 4,
            goal == c.shown(start, w as int, sub@),
            forall|k: int| 0 <= k < p * 4 ==> #[trigger] canvas@[k] == goal[k],
            forall|k: int| p * 4 <= k < total * 4 ==> #[trigger] canvas@[k] == start[k],
        decreases total - p,
    {
        let x: usize = p % w as usize;
        let y: usize = p / w as usize;
        let (cx, cy): (usize, usize) = (c.x as usize, c.y as usize);
        let inside = cx <= x && x - cx < c.w as usize && cy <= y && y - cy < c.h as usize;
        assert(inside == c.covers(w as int, p as int));
        let ghost before = canvas@;
        if inside {
            proof {
                lemma_source(*c, w as int, h as int, p as int);
                assert((y - cy) * c.w + (x - cx) == c.source_of(w as int, p as int));
                assert((y - cy) * c.w >= 0) by (nonlinear_arith)
                    requires
                        y >= cy,
                ;
            }
            let q: usize = (y - cy) * c.w as usize + (x - cx);
            let dst = (canvas[p * 4], canvas[p * 4 + 1], canvas[p * 4 + 2], canvas[p * 4 + 3]);
            let src = (sub[q * 4], sub[q * 4 + 1], sub[q * 4 + 2], sub[q * 4 + 3]);
            let v = blend_pixel(dst, src, c.source);
            canvas.set(p * 4, v.0);
            canvas.set(p * 4 + 1, v.1);
            canvas.set(p * 4 + 2, v.2);
            canvas.set(p * 4 + 3, v.3);
            proof {
                assert(dst == pixel_of(start, p as int));
                assert(src == pixel_of(sub@, c.source_of(w as int, p as int)));
            }
        }
        proof {
            assert forall|k: int| p * 4 <= k < p * 4 + 4 implies #[trigger] canvas@[k] == goal[k] by {
                assert(k / 4 == p as int);
                assert(k % 4 == k - p * 4);
            }
        }
        p = p + 1;
    }
    assert(canvas@ =~= goal);
}

/// Clears the rectangle of the frame.
fn clear_region(canvas: &mut Vec<u8>, w: u32, h: u32, c: &FrameCtl)
    requires
        w > 0,
        w * h <= MAX_PIXELS,
        c.fits(w as int, h as int),
        old(canvas)@.len() == w * h * 4,
    ensures
        final(canvas)@ == Seq::new(
            old(canvas)@.len(),
            |k: int|
                if c.covers(w as int, k / 4) {
                    0u8
                } else {
                    old(canvas)@[k]
                },
        ),
{
    let ghost start = canvas@;
    let n: usize = canvas.len();
    let mut k: usize = 0;
    while k < n
        invariant
            k <= n,
            n == start.len(),
            canvas@.len() == n,
            w > 0,
            forall|j: int|
                0 <= j < k ==> #[trigger] canvas@[j] == (if c.covers(w as int, j / 4) {
                    0u8
                } else {
                    start[j]
                }),
            forall|j: int| k <= j < n ==> #[trigger] canvas@[j] == start[j],
        decreases n - k,
    {
        let x: usize = k / 4 % w as usize;
        let y: usize = k / 4 / w as usize;
        let (cx, cy): (usize, usize) = (c.x as usize, c.y as usize);
        if cx <= x && x - cx < c.w as usize && cy <= y && y - cy < c.h as usize {
            canvas.set(k, 0);
        }
        k = k + 1;
    }
    assert(canvas@ =~= Seq::new(
        start.len(),
        |k: int|
            if c.covers(w as int, k / 4) {
                0u8
            } else {
                start[k]
            },
    ));
}

/// The frames of an animation, one laid on what the others left.
fn compose(c: &Chunks, w: u32, h: u32, f: &Format<'_>) -> (r: Option<Vec<Frame>>)
    requires
        c.scan().good_header(),
        f.wf(),
        f.layout() == c.scan().layout(),
        w == c.header->0.w,
        h == c.header->0.h,
    ensures
        r is Some <==> (forall|k: int|
            0 <= k < c.parts@.len() ==> #[trigger] c.scan().good_part(k)),
        r matches Some(v) ==> {
            &&& v@.len() == c.parts@.len()
            &&& forall|k: int|
                0 <= k < c.parts@.len() ==> (#[trigger] v@[k]).delay == c.scan().parts[k].ctl.delay
                    && v@[k].rgba@ == c.scan().parts[k].ctl.shown(
                    c.scan().canvas_before(k),
                    w as int,
                    c.scan().sub(k),
                ) && v@[k].rgba@.len() == w * h * 4
        },
{
    let ghost s = c.scan();
    let ghost wi = w as int;
    let area: usize = w as usize * h as usize * 4;
    let mut canvas: Vec<u8> = vec![0u8; area];
    assert(canvas@ =~= s.canvas_before(0));
    let mut frames: Vec<Frame> = Vec::new();
    let mut k: usize = 0;
    while k < c.parts.len()
        invariant
            k <= c.parts@.len(),
            s == c.scan(),
            s.good_header(),
            f.wf(),
            f.layout() == s.layout(),
            w == s.header->0.w,
            h == s.header->0.h,
            wi == w,
            w > 0,
            h > 0,
            w * h <= MAX_PIXELS,
            canvas@.len() == w * h * 4,
            canvas@ == s.canvas_before(k as int),
            forall|j: int| 0 <= j < k ==> #[trigger] s.good_part(j),
            frames@.len() == k,
            forall|j: int|
                0 <= j < k ==> (#[trigger] frames@[j]).delay == s.parts[j].ctl.delay
                    && frames@[j].rgba@ == s.parts[j].ctl.shown(s.canvas_before(j), wi, s.sub(j))
                    && frames@[j].rgba@.len() == w * h * 4,
        decreases c.parts@.len() - k,
    {
        let part = &c.parts[k];
        let ctl = part.ctl;
        assert(s.parts[k as int].ctl == ctl);
        if ctl.w == 0 || ctl.h == 0 || ctl.w > w || ctl.x > w - ctl.w || ctl.h > h || ctl.y > h
            - ctl.h {
            assert(!s.good_part(k as int));
            return None;
        }
        assert(ctl.w * ctl.h <= w * h) by (nonlinear_arith)
            requires
                ctl.w <= w,
                ctl.h <= h,
        ;
        let z = if k == 0 {
            &c.idat
        } else {
            &part.data
        };
        assert(z@ == s.data_of(k as int));
        let sub = match decode_subimage(z, ctl.w, ctl.h, f) {
            Some(v) => v,
            None => {
                assert(!s.good_part(k as int));
                return None;
            },
        };
        assert(sub@ == s.sub(k as int));
        assert(s.good_part(k as int));
        let saved = canvas.clone();
        assert(saved@ =~= canvas@);
        blend(&mut canvas, w, h, &ctl, &sub);
        let shown = canvas.clone();
        assert(shown@ =~= canvas@);
        frames.push(Frame { rgba: shown, delay: ctl.delay });
        if ctl.dispose == 1 {
            clear_region(&mut canvas, w, h, &ctl);
        } else if ctl.dispose == 2 {
            canvas = saved;
        }
        k = k + 1;
    }
    Some(frames)
}

/// Whether the bytes begin as a PNG does.
pub fn is_png(b: &[u8]) -> (r: bool)
    ensures
        r == (b@.len() >= 8 && b@.subrange(0, 8) == signature()),
{
    if b.len() < 8 {
        return false;
    }
    let r = b[0] == 0x89 && b[1] == 0x50 && b[2] == 0x4e && b[3] == 0x47 && b[4] == 0x0d && b[5]
        == 0x0a && b[6] == 0x1a && b[7] == 0x0a;
    proof {
        let s = b@.subrange(0, 8);
        assert(s[0] == b@[0] && s[1] == b@[1] && s[2] == b@[2] && s[3] == b@[3] && s[4] == b@[4]
            && s[5] == b@[5] && s[6] == b@[6] && s[7] == b@[7]);
        if r {
            assert(s =~= signature());
        }
    }
    r
}

/// Decodes a PNG or an APNG. Every frame of the result is a picture of the whole canvas.
pub fn decode(b: &[u8]) -> (r: Option<Animation>)
    ensures
        match file_scan(b@) {
            Some(s) => if s.good() {
                r matches Some(a) && s.is_animation(a) && a.wf() && a.frames@.len() >= 1
            } else {
                r is None
            },
            None => r is None,
        },
{
    if b.len() < 33 || !is_png(b) {
        return None;
    }
    let c = match read_chunks(b) {
        Some(c) => c,
        None => {
            return None;
        },
    };
    let ghost s = c.scan();
    let head = match c.header {
        Some(h) => h,
        None => {
            return None;
        },
    };
    let w: u32 = head.w;
    let h: u32 = head.h;
    assert(w * h <= 0xffff_ffff * 0xffff_ffff) by (nonlinear_arith)
        requires
            w <= 0xffff_ffff,
            h <= 0xffff_ffff,
    ;
    if w == 0 || h == 0 || w as u64 * h as u64 > MAX_PIXELS as u64 || head.interlace != 0 {
        return None;
    }
    assert(w <= MAX_PIXELS && h <= MAX_PIXELS) by (nonlinear_arith)
        requires
            1 <= w,
            1 <= h,
            w * h <= MAX_PIXELS,
    ;
    let ch: usize = match channels_of(head.color) {
        Some(n) => n,
        None => {
            return None;
        },
    };
    if !supported_depth(head.color, head.depth) {
        return None;
    }
    let f = Format {
        depth: head.depth,
        color: head.color,
        ch,
        palette: &c.palette,
        trns: &c.trns,
    };
    assert(f.layout() == s.layout());
    assert(s.parts.len() == c.parts@.len());
    if c.parts.len() == 0 {
        let rgba = match decode_subimage(&c.idat, w, h, &f) {
            Some(v) => v,
            None => {
                return None;
            },
        };
        let mut frames: Vec<Frame> = Vec::new();
        frames.push(Frame { rgba, delay: 1000 });
        return Some(Animation { width: w as u16, height: h as u16, frames });
    }
    if c.declared > 1 && c.parts.len() < c.declared as usize {
        return None;
    }
    match compose(&c, w, h, &f) {
        Some(frames) => Some(Animation { width: w as u16, height: h as u16, frames }),
        None => None,
    }
}

/// Paeth's prediction is one of the three neighbours; where the one to the left and the one above
/// to the left are the same it is the one above, so that a row of zeros repeats the row above it.
pub proof fn law_paeth(a: int, b: int, c: int)
    ensures
        paeth_of(a, b, c) == a || paeth_of(a, b, c) == b || paeth_of(a, b, c) == c,
        a == c ==> paeth_of(a, b, c) == b,
{
}

/// A row that is written as zeros under the filter for the row above, or under Paeth's, is the row
/// above it.
pub proof fn law_zero_row_repeats(ft: u8, cur: Seq<u8>, prev: Seq<u8>, bpp: int, n: int)
    requires
        ft == 2 || ft == 4,
        bpp >= 1,
        0 <= n <= cur.len(),
        n <= prev.len(),
        forall|i: int| 0 <= i < n ==> #[trigger] cur[i] == 0,
    ensures
        unfiltered(ft, cur, prev, bpp, n) == prev.take(n),
    decreases n,
{
    if n > 0 {
        law_zero_row_repeats(ft, cur, prev, bpp, n - 1);
        let row = unfiltered(ft, cur, prev, bpp, n - 1);
        assert(cur[n - 1] == 0);
        law_paeth(
            byte_or_zero(row, n - 1 - bpp),
            byte_or_zero(prev, n - 1),
            byte_or_zero(prev, n - 1 - bpp),
        );
        assert(prev.take(n) =~= prev.take(n - 1).push(prev[n - 1]));
    } else {
        assert(prev.take(0) =~= Seq::<u8>::empty());
    }
}

/// A pixel that replaces, or that is opaque, takes the place of what was there; and a transparent
/// one laid over leaves an opaque pixel as it is.
pub proof fn law_blend(dst: (u8, u8, u8, u8), src: (u8, u8, u8, u8))
    ensures
        blended(dst, src, true) == src,
        src.3 == 255 ==> blended(dst, src, false) == src,
        src.3 == 0 && dst.3 == 255 ==> blended(dst, src, false) == dst,
{
    if src.3 == 0 && dst.3 == 255 {
        let a = 0 + 255 * 255int / 255;
        assert(a == 255);
        lemma_over_clear(dst.0, src.0);
        lemma_over_clear(dst.1, src.1);
        lemma_over_clear(dst.2, src.2);
    }
}

proof fn lemma_over_clear(dc: u8, sc: u8)
    ensures
        over(dc, sc, 0, 255, 255) == dc,
{
    assert(sc * 0 == 0);
    assert(dc * 255 * (255 - 0) / 255 == dc * 255) by (nonlinear_arith);
    assert(dc * 255int / 255 == dc as int);
}

} // verus!
