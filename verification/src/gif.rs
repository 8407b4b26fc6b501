//! A small decoder for GIF animations, for icons. The bytes come from a file that somebody named,
//! so nothing in them is taken on trust: whatever is cut off or out of bounds gives `None`, and the
//! canvas and the number of frames are limited.
use crate::anim::{Animation, Frame};
use crate::bits;
use crate::bits::{two_to, Bits};
use crate::bytes;
use crate::bytes::{copy, le_u16};
use vstd::arithmetic::power2;
use vstd::prelude::*;

verus! {

/// The most pixels that a canvas has.
pub const MAX_PIXELS: u32 = 16_384;

/// The most frames that are read.
pub const MAX_FRAMES: usize = 64;

/// The most codes that the dictionary holds: a code has at most 12 bits.
pub const MAX_CODE: usize = 4096;

// ---- the LZW codes ----

/// The dictionary after a clear code: each color as itself, and places for the two codes that are
/// not colors.
pub open spec fn base_dict(min: nat) -> Seq<Seq<u8>> {
    Seq::new(
        power2::pow2(min) + 2,
        |i: int|
            if i < power2::pow2(min) {
                seq![i as u8]
            } else {
                seq![0u8]
            },
    )
}

/// The width of a code once the dictionary has `size` entries: a bit more whenever the codes of
/// `width` bits are used up, and 12 at most.
pub open spec fn grown(size: nat, width: nat) -> nat {
    if size == power2::pow2(width) && width < 12 {
        width + 1
    } else {
        width
    }
}

/// What the codes from the bit `p` on add to `out`. A code stands for its entry in the dictionary,
/// and each code but the first after a clear code adds an entry: that of the code before it, and
/// behind it the first color of this one. The new entry may be the one that the code stands for.
/// The codes end with the end code or with the data.
pub open spec fn lzw(
    data: Seq<u8>,
    min: nat,
    dict: Seq<Seq<u8>>,
    width: nat,
    prev: Option<Seq<u8>>,
    p: int,
    out: Seq<u8>,
) -> Option<Seq<u8>>
    decreases data.len() * 8 - p,
{
    let code = bits::bits_value(data, p, width) as int;
    let q = p + width;
    let clear = power2::pow2(min);
    if width == 0 || q > data.len() * 8 || code == clear + 1 {
        Some(out)
    } else if code == clear {
        lzw(data, min, base_dict(min), min + 1, None, q, out)
    } else if code < dict.len() {
        let s = dict[code];
        match prev {
            None => lzw(data, min, dict, width, Some(s), q, out + s),
            Some(t) => if dict.len() >= MAX_CODE {
                None
            } else {
                let more = dict.push(t.push(s[0]));
                lzw(data, min, more, grown(more.len(), width), Some(s), q, out + s)
            },
        }
    } else if code == dict.len() && prev is Some && dict.len() < MAX_CODE {
        let t = prev->0;
        let s = t.push(t[0]);
        let more = dict.push(s);
        lzw(data, min, more, grown(more.len(), width), Some(s), q, out + s)
    } else {
        None
    }
}

/// The `expect` colors that the data holds.
pub open spec fn lzw_colors(data: Seq<u8>, min: u8, expect: nat) -> Option<Seq<u8>> {
    if min < 2 || min > 8 {
        None
    } else {
        match lzw(
            data,
            min as nat,
            base_dict(min as nat),
            (min + 1) as nat,
            None,
            0,
            Seq::<u8>::empty(),
        ) {
            None => None,
            Some(out) => if out.len() < expect {
                None
            } else {
                Some(out.take(expect as int))
            },
        }
    }
}

/// Mark of an entry that is a single color.
const NO_PREFIX: u16 = 0xffff;

/// The dictionary as it is kept: each entry is the entry `prefix` and behind it the color
/// `suffix`.
struct Dict {
    prefix: Vec<u16>,
    suffix: Vec<u8>,
}

impl Dict {
    /// Whether the entries are those of `d`.
    spec fn holds(self, d: Seq<Seq<u8>>) -> bool {
        &&& self.prefix@.len() == d.len()
        &&& self.suffix@.len() == d.len()
        &&& d.len() <= MAX_CODE
        &&& forall|i: int|
            0 <= i < d.len() ==> {
                let p = #[trigger] self.prefix@[i];
                if p == NO_PREFIX {
                    d[i] == seq![self.suffix@[i]]
                } else {
                    p < i && d[i] == d[p as int].push(self.suffix@[i])
                }
            }
    }

    /// The dictionary after a clear code.
    fn base(min: u32) -> (r: Dict)
        requires
            2 <= min <= 8,
        ensures
            r.holds(base_dict(min as nat)),
    {
        proof {
            power2::lemma2_to64();
        }
        let clear: u32 = two_to(min);
        assert(clear <= 256) by {
            power2::lemma_pow2_strictly_increases(min as nat, 9);
            if min < 8 {
                power2::lemma_pow2_strictly_increases(min as nat, 8);
            }
        }
        let mut prefix: Vec<u16> = Vec::new();
        let mut suffix: Vec<u8> = Vec::new();
        let mut i: u32 = 0;
        while i < clear + 2
            invariant
                i <= clear + 2,
                clear <= 256,
                prefix@.len() == i,
                suffix@.len() == i,
                forall|j: int| 0 <= j < i ==> #[trigger] prefix@[j] == NO_PREFIX,
                forall|j: int|
                    0 <= j < i ==> #[trigger] suffix@[j] == (if j < clear {
                        j as u8
                    } else {
                        0u8
                    }),
            decreases clear + 2 - i,
        {
            prefix.push(NO_PREFIX);
            suffix.push(
                if i < clear {
                    i as u8
                } else {
                    0
                },
            );
            i = i + 1;
        }
        let r = Dict { prefix, suffix };
        assert(r.holds(base_dict(min as nat)));
        r
    }

    /// The colors of an entry, appended to `out`.
    fn emit(&self, out: &mut Vec<u8>, code: usize, Ghost(d): Ghost<Seq<Seq<u8>>>)
        requires
            self.holds(d),
            code < d.len(),
        ensures
            final(out)@ == old(out)@ + d[code as int],
    {
        let mut buf: Vec<u8> = Vec::new();
        let mut c: usize = code;
        assert(d[code as int] =~= d[c as int] + buf@.reverse());
        while self.prefix[c] != NO_PREFIX
            invariant
                self.holds(d),
                c < d.len(),
                code < d.len(),
                d[code as int] == d[c as int] + buf@.reverse(),
            decreases c,
        {
            let ghost before = buf@;
            buf.push(self.suffix[c]);
            let p: usize = self.prefix[c] as usize;
            proof {
                assert(buf@.reverse() =~= seq![self.suffix@[c as int]] + before.reverse());
                assert(d[c as int] == d[p as int].push(self.suffix@[c as int]));
                assert(d[p as int] + buf@.reverse() =~= d[c as int] + before.reverse());
            }
            c = p;
        }
        out.push(self.suffix[c]);
        assert(out@ =~= old(out)@ + d[c as int]);
        let mut k: usize = buf.len();
        while k > 0
            invariant
                k <= buf@.len(),
                out@ == old(out)@ + d[c as int] + buf@.reverse().take(buf@.len() - k),
            decreases k,
        {
            k = k - 1;
            out.push(buf[k]);
            proof {
                let r = buf@.reverse();
                let n = buf@.len() - k;
                assert(r.take(n) =~= r.take(n - 1).push(r[n - 1]));
                assert(r[n - 1] == buf@[k as int]);
            }
        }
        proof {
            let r = buf@.reverse();
            assert(r.take(r.len() as int) =~= r);
            assert(out@ =~= old(out)@ + d[code as int]);
        }
    }

    /// The first color of an entry.
    fn chain_first(&self, code: usize, Ghost(d): Ghost<Seq<Seq<u8>>>) -> (r: u8)
        requires
            self.holds(d),
            code < d.len(),
        ensures
            d[code as int].len() > 0,
            r == d[code as int][0],
    {
        let mut c: usize = code;
        while self.prefix[c] != NO_PREFIX
            invariant
                self.holds(d),
                c < d.len(),
                code < d.len(),
                d[c as int].len() > 0 ==> d[code as int].len() > 0 && d[c as int][0]
                    == d[code as int][0],
            decreases c,
        {
            let p: usize = self.prefix[c] as usize;
            assert(d[c as int] == d[p as int].push(self.suffix@[c as int]));
            c = p;
        }
        assert(d[c as int] == seq![self.suffix@[c as int]]);
        self.suffix[c]
    }

    /// Adds the entry made of the entry `prev` and the color `first`.
    fn add_entry(&mut self, prev: usize, first: u8, Ghost(d): Ghost<Seq<Seq<u8>>>)
        requires
            old(self).holds(d),
            d.len() < MAX_CODE,
            prev < d.len(),
        ensures
            final(self).holds(d.push(d[prev as int].push(first))),
    {
        self.prefix.push(prev as u16);
        self.suffix.push(first);
        let ghost e = d.push(d[prev as int].push(first));
        assert forall|i: int| 0 <= i < e.len() implies ({
            let p = #[trigger] self.prefix@[i];
            if p == NO_PREFIX {
                e[i] == seq![self.suffix@[i]]
            } else {
                p < i && e[i] == e[p as int].push(self.suffix@[i])
            }
        }) by {
            if i < d.len() {
                assert(old(self).prefix@[i] == self.prefix@[i]);
            }
        }
    }
}

/// The width of a code once the dictionary has `size` entries.
fn grow(size: usize, width: u32) -> (r: u32)
    requires
        3 <= width <= 12,
    ensures
        r == grown(size as nat, width as nat),
        3 <= r <= 12,
{
    let full: u32 = two_to(width);
    if size == full as usize && width < 12 {
        width + 1
    } else {
        width
    }
}

/// The `expect` colors that the data holds, of codes that begin with `min_code_size + 1` bits.
/// `None` where a code stands for nothing, where the dictionary overflows, or where there are
/// fewer colors. What comes after the colors does not matter.
pub fn lzw_decode(data: &[u8], min_code_size: u8, expect: usize) -> (r: Option<Vec<u8>>)
    ensures
        match lzw_colors(data@, min_code_size, expect as nat) {
            Some(c) => r matches Some(v) && v@ == c,
            None => r is None,
        },
{
    if min_code_size < 2 || min_code_size > 8 {
        return None;
    }
    let min: u32 = min_code_size as u32;
    let clear: u32 = two_to(min);
    proof {
        power2::lemma2_to64();
        power2::lemma_pow2_strictly_increases(min as nat, 9);
    }
    let end: u32 = clear + 1;
    let mut dict = Dict::base(min);
    let ghost mut d = base_dict(min as nat);
    let mut width: u32 = min + 1;
    let mut prev: Option<usize> = None;
    let ghost mut last: Option<Seq<u8>> = None;
    let mut out: Vec<u8> = Vec::new();
    let mut b = Bits::new(data);
    let ghost all = lzw(data@, min as nat, d, width as nat, None, 0, Seq::<u8>::empty());
    assert(out@ =~= Seq::<u8>::empty());
    loop
        invariant_except_break
            all == lzw(data@, min as nat, d, width as nat, last, b.pos(), out@),
        invariant
            dict.holds(d),
            d.len() >= clear + 2,
            clear == power2::pow2(min as nat),
            end == clear + 1,
            2 <= min <= 8,
            min == min_code_size,
            3 <= width <= 12,
            b.wf(),
            b.data == data,
            match prev {
                Some(c) => c < d.len() && last == Some(d[c as int]),
                None => last is None,
            },
            all == lzw(
                data@,
                min as nat,
                base_dict(min as nat),
                (min + 1) as nat,
                None,
                0,
                Seq::<u8>::empty(),
            ),
        ensures
            all == Some(out@),
        decreases data@.len() * 8 - b.pos(),
    {
        let ghost p = b.pos();
        let code: usize = match b.read(width) {
            Some(c) => c as usize,
            None => {
                break;
            },
        };
        if code == end as usize {
            break;
        }
        if code == clear as usize {
            dict = Dict::base(min);
            width = min + 1;
            prev = None;
            proof {
                d = base_dict(min as nat);
                last = None;
            }
            continue ;
        }
        let size: usize = dict.prefix.len();
        if code < size {
            let first: u8 = dict.chain_first(code, Ghost(d));
            dict.emit(&mut out, code, Ghost(d));
            let ghost s = d[code as int];
            match prev {
                Some(t) => {
                    if size >= MAX_CODE {
                        return None;
                    }
                    dict.add_entry(t, first, Ghost(d));
                    proof {
                        d = d.push(d[t as int].push(first));
                    }
                    width = grow(size + 1, width);
                },
                None => {},
            }
            proof {
                last = Some(s);
            }
        } else if code == size && size < MAX_CODE {
            let t: usize = match prev {
                Some(t) => t,
                None => {
                    return None;
                },
            };
            let first: u8 = dict.chain_first(t, Ghost(d));
            dict.add_entry(t, first, Ghost(d));
            proof {
                d = d.push(d[t as int].push(first));
                last = Some(d[code as int]);
            }
            dict.emit(&mut out, code, Ghost(d));
            width = grow(size + 1, width);
        } else {
            return None;
        }
        prev = Some(code);
    }
    if out.len() < expect {
        return None;
    }
    out.truncate(expect);
    assert(out@ =~= (all->0).take(expect as int));
    Some(out)
}

// ---- the blocks of the file ----

/// How many bytes a color table takes: three for each of its 2^(N+1) colors.
pub open spec fn table_size(packed: u8) -> int {
    3 * power2::pow2(((packed & 7) + 1) as nat) as int
}

/// Where the chain of sub-blocks that begins at `pos` ends: behind the empty one.
pub open spec fn sub_end(b: Seq<u8>, pos: int) -> Option<int>
    decreases b.len() - pos + 256,
{
    if pos < 0 || pos >= b.len() {
        None
    } else if b[pos] == 0 {
        Some(pos + 1)
    } else {
        sub_end(b, pos + b[pos] + 1)
    }
}

/// The data in the chain of sub-blocks that begins at `pos`, and where the chain ends.
pub open spec fn sub_data(b: Seq<u8>, pos: int) -> Option<(Seq<u8>, int)>
    decreases b.len() - pos,
{
    if pos < 0 || pos >= b.len() || pos + 1 + b[pos] > b.len() {
        None
    } else if b[pos] == 0 {
        Some((Seq::<u8>::empty(), pos + 1))
    } else {
        let stop = pos + 1 + b[pos];
        match sub_data(b, stop) {
            None => None,
            Some((rest, end)) => Some((b.subrange(pos + 1, stop) + rest, end)),
        }
    }
}

/// A chain ends behind its beginning.
pub proof fn lemma_sub_end(b: Seq<u8>, pos: int)
    ensures
        sub_end(b, pos) matches Some(end) ==> pos < end <= b.len(),
    decreases b.len() - pos + 256,
{
    if 0 <= pos < b.len() && b[pos] != 0 {
        lemma_sub_end(b, pos + b[pos] + 1);
    }
}

proof fn lemma_sub_data(b: Seq<u8>, pos: int)
    ensures
        sub_data(b, pos) matches Some((d, end)) ==> pos < end <= b.len(),
    decreases b.len() - pos + 256,
{
    if 0 <= pos < b.len() && b[pos] != 0 {
        lemma_sub_data(b, pos + b[pos] + 1);
    }
}

/// What a graphic control block says of the picture that follows.
#[derive(Clone, Copy)]
pub struct Control {
    /// Milliseconds.
    pub delay: u64,
    /// What happens to the picture once its time is over: 2 clears its place, 3 brings back what
    /// was there before, and anything else leaves it.
    pub disposal: u8,
    pub transparent: Option<u8>,
}

/// What holds for a picture that no control block precedes.
pub open spec fn no_control() -> Control {
    Control { delay: 0, disposal: 0, transparent: None }
}

/// What the control block at `pos` says. A delay of 0 stands for a tenth of a second.
pub open spec fn control_at(b: Seq<u8>, pos: int) -> Option<Control> {
    if pos + 8 > b.len() || b[pos + 2] < 4 {
        None
    } else {
        let packed = b[pos + 3];
        let cs = bytes::le16(b, pos + 4);
        Some(
            Control {
                delay: (if cs == 0 {
                    100
                } else {
                    cs * 10
                }) as u64,
                disposal: packed & 7,
                transparent: if packed & 0x10 != 0 {
                    Some(b[pos + 6])
                } else {
                    None
                },
            },
        )
    }
}

/// A picture of the file: a rectangle of the canvas, and the colors of its pixels.
pub struct Picture {
    pub left: u16,
    pub top: u16,
    pub width: u16,
    pub height: u16,
    pub interlaced: bool,
    pub indices: Seq<u8>,
    pub palette: Seq<u8>,
    pub control: Control,
}

/// The picture at `pos`, and where it ends. `None` where it is empty, does not fit on the canvas,
/// has no colors, or is cut off.
pub open spec fn picture_at(
    b: Seq<u8>,
    pos: int,
    global: Seq<u8>,
    cw: int,
    ch: int,
    control: Control,
) -> Option<(Picture, int)> {
    let left = bytes::le16(b, pos + 1);
    let top = bytes::le16(b, pos + 3);
    let width = bytes::le16(b, pos + 5);
    let height = bytes::le16(b, pos + 7);
    let packed = b[pos + 9];
    let own = packed & 0x80 != 0;
    let at = if own {
        pos + 10 + table_size(packed)
    } else {
        pos + 10
    };
    let palette = if own {
        b.subrange(pos + 10, at)
    } else {
        global
    };
    if pos + 10 > b.len() || width == 0 || height == 0 || left + width > cw || top + height > ch
        || at >= b.len() || palette.len() < 3 {
        None
    } else {
        match sub_data(b, at + 1) {
            None => None,
            Some((data, end)) => match lzw_colors(data, b[at], (width * height) as nat) {
                None => None,
                Some(indices) => Some(
                    (
                        Picture {
                            left: left as u16,
                            top: top as u16,
                            width: width as u16,
                            height: height as u16,
                            interlaced: packed & 0x40 != 0,
                            indices,
                            palette,
                            control,
                        },
                        end,
                    ),
                ),
            },
        }
    }
}

/// The pictures of the file: `done` and those in the blocks from `pos` on.
pub open spec fn pictures(
    b: Seq<u8>,
    pos: int,
    global: Seq<u8>,
    cw: int,
    ch: int,
    control: Control,
    done: Seq<Picture>,
) -> Option<Seq<Picture>>
    decreases b.len() - pos,
{
    proof {
        lemma_sub_end(b, pos + 2);
        lemma_picture_end(b, pos, global, cw, ch, control);
    }
    if pos < 0 || pos >= b.len() || b[pos] == 0x3b {
        Some(done)
    } else if b[pos] == 0x21 {
        let labelled = pos + 1 < b.len() && b[pos + 1] == 0xf9;
        let next = if labelled {
            control_at(b, pos)
        } else {
            Some(control)
        };
        match (next, sub_end(b, pos + 2)) {
            (Some(c), Some(end)) => pictures(b, end, global, cw, ch, c, done),
            _ => None,
        }
    } else if b[pos] == 0x2c {
        if done.len() >= MAX_FRAMES {
            Some(done)
        } else {
            match picture_at(b, pos, global, cw, ch, control) {
                None => None,
                Some((pic, end)) => pictures(
                    b,
                    end,
                    global,
                    cw,
                    ch,
                    no_control(),
                    done.push(pic),
                ),
            }
        }
    } else {
        None
    }
}

/// A picture ends behind its beginning.
pub proof fn lemma_picture_end(
    b: Seq<u8>,
    pos: int,
    global: Seq<u8>,
    cw: int,
    ch: int,
    control: Control,
)
    ensures
        picture_at(b, pos, global, cw, ch, control) matches Some((pic, end)) ==> pos < end
            <= b.len(),
{
    let packed = b[pos + 9];
    lemma_sub_data(b, pos + 10 + 1);
    lemma_sub_data(b, pos + 10 + table_size(packed) + 1);
}

/// Whether the file begins as a GIF does, with a canvas that is neither empty nor too large.
pub open spec fn good_header(b: Seq<u8>) -> bool {
    &&& b.len() >= 13
    &&& b.subrange(0, 6) == seq![0x47u8, 0x49, 0x46, 0x38, 0x39, 0x61] || b.subrange(0, 6) == seq![
        0x47u8,
        0x49,
        0x46,
        0x38,
        0x37,
        0x61,
    ]
    &&& 0 < bytes::le16(b, 6)
    &&& 0 < bytes::le16(b, 8)
    &&& bytes::le16(b, 6) * bytes::le16(b, 8) <= MAX_PIXELS
}

/// The pictures of a whole file.
pub open spec fn file_pictures(b: Seq<u8>) -> Option<Seq<Picture>> {
    let own = b[10] & 0x80 != 0;
    let at = if own {
        13 + table_size(b[10])
    } else {
        13
    };
    if !good_header(b) || at > b.len() {
        None
    } else {
        match pictures(
            b,
            at,
            b.subrange(13, at),
            bytes::le16(b, 6),
            bytes::le16(b, 8),
            no_control(),
            Seq::<Picture>::empty(),
        ) {
            Some(p) => if p.len() == 0 {
                None
            } else {
                Some(p)
            },
            None => None,
        }
    }
}

// ---- the pictures on the canvas ----

/// How many rows a pass over an interlaced picture covers: `start`, and every `step`th after it.
pub open spec fn pass_rows(height: int, start: int, step: int) -> int {
    if start >= height {
        0
    } else {
        (height - start + step - 1) / step
    }
}

/// The row of the picture that is stored as row `row`: an interlaced one stores every eighth row,
/// then those halfway between, then every other even row, then the odd ones.
pub open spec fn interlaced(row: int, height: int) -> int {
    let a = pass_rows(height, 0, 8);
    let b = pass_rows(height, 4, 8);
    let c = pass_rows(height, 2, 4);
    if row < a {
        row * 8
    } else if row < a + b {
        4 + (row - a) * 8
    } else if row < a + b + c {
        2 + (row - a - b) * 4
    } else {
        1 + (row - a - b - c) * 2
    }
}

impl Picture {
    /// Whether the picture lies on a canvas of this size and has a color for each pixel.
    pub open spec fn fits(self, cw: int, ch: int) -> bool {
        &&& 0 < self.width
        &&& 0 < self.height
        &&& self.left + self.width <= cw
        &&& self.top + self.height <= ch
        &&& self.indices.len() == self.width * self.height
    }

    /// Where on the canvas the first byte of the `i`th pixel is.
    pub open spec fn byte_of(self, cw: int, i: int) -> int {
        let row = i / self.width as int;
        let y = if self.interlaced {
            interlaced(row, self.height as int)
        } else {
            row
        };
        ((self.top + y) * cw + self.left + i % self.width as int) * 4
    }

    /// The canvas with the `i`th pixel painted. A transparent one, and one without a color in the
    /// palette, is left out.
    pub open spec fn painted(self, canvas: Seq<u8>, cw: int, i: int) -> Seq<u8> {
        let index = self.indices[i];
        let entry = index * 3;
        let at = self.byte_of(cw, i);
        if self.control.transparent == Some(index) || entry + 3 > self.palette.len() {
            canvas
        } else {
            canvas.update(at, self.palette[entry]).update(at + 1, self.palette[entry + 1]).update(
                at + 2,
                self.palette[entry + 2],
            ).update(at + 3, 255)
        }
    }

    /// The canvas with the first `n` pixels painted.
    pub open spec fn drawn(self, canvas: Seq<u8>, cw: int, n: int) -> Seq<u8>
        decreases n,
    {
        if n <= 0 {
            canvas
        } else {
            self.painted(self.drawn(canvas, cw, n - 1), cw, n - 1)
        }
    }

    /// Whether the byte at `k` of the canvas belongs to the picture.
    pub open spec fn covers(self, cw: int, k: int) -> bool {
        let x = k / 4 % cw;
        let y = k / 4 / cw;
        self.left <= x < self.left + self.width && self.top <= y < self.top + self.height
    }

    /// The canvas while the picture is shown.
    pub open spec fn shown(self, canvas: Seq<u8>, cw: int) -> Seq<u8> {
        self.drawn(canvas, cw, self.indices.len() as int)
    }

    /// The canvas after the picture's time is over.
    pub open spec fn after(self, canvas: Seq<u8>, cw: int) -> Seq<u8> {
        let shown = self.shown(canvas, cw);
        if self.control.disposal == 2 {
            Seq::new(
                shown.len(),
                |k: int|
                    if self.covers(cw, k) {
                        0u8
                    } else {
                        shown[k]
                    },
            )
        } else if self.control.disposal == 3 {
            canvas
        } else {
            shown
        }
    }
}

/// The canvas on which the `n`th picture is drawn; before the first it is transparent.
pub open spec fn canvas_before(pics: Seq<Picture>, cw: int, ch: int, n: int) -> Seq<u8>
    decreases n,
{
    if n <= 0 {
        Seq::new((cw * ch * 4) as nat, |k: int| 0u8)
    } else {
        pics[n - 1].after(canvas_before(pics, cw, ch, n - 1), cw)
    }
}

/// What the decoder owes for the pictures of a file: a frame for each, with the canvas as it is
/// while the picture is shown.
pub open spec fn is_animation(a: Animation, pics: Seq<Picture>, cw: int, ch: int) -> bool {
    &&& a.width == cw
    &&& a.height == ch
    &&& a.frames@.len() == pics.len()
    &&& forall|i: int|
        0 <= i < pics.len() ==> (#[trigger] a.frames@[i]).rgba@ == pics[i].shown(
            canvas_before(pics, cw, ch, i),
            cw,
        ) && a.frames@[i].delay == pics[i].control.delay
}

/// Each stored row of an interlaced picture is a row of the picture, and no two are the same one.
pub proof fn law_interlace_permutes(r1: int, r2: int, height: int)
    requires
        0 <= r1 < height,
        0 <= r2 < height,
    ensures
        0 <= interlaced(r1, height) < height,
        interlaced(r1, height) == interlaced(r2, height) ==> r1 == r2,
{
    lemma_interlaced(r1, height);
    lemma_interlaced(r2, height);
}

/// The rows of the four passes together are the rows of the picture.
proof fn lemma_passes(height: int)
    requires
        height > 0,
    ensures
        ({
            let a = pass_rows(height, 0, 8);
            let b = pass_rows(height, 4, 8);
            let c = pass_rows(height, 2, 4);
            &&& 8 * (a - 1) < height
            &&& b > 0 ==> 8 * (b - 1) + 4 < height
            &&& c > 0 ==> 4 * (c - 1) + 2 < height
            &&& a + b + c == height - height / 2
            &&& a >= 0 && b >= 0 && c >= 0
        }),
{
    let q = height / 8;
    let r = height % 8;
    assert((height + 7) / 8 == q + (if r > 0 {
        1int
    } else {
        0
    }));
    assert((height + 3) / 8 == q + (if r > 4 {
        1int
    } else {
        0
    }));
    assert((height + 1) / 4 == 2 * q + (if r > 6 {
        2int
    } else if r > 2 {
        1
    } else {
        0
    }));
    assert(height / 2 == 4 * q + r / 2);
}

/// The row that is stored tells by its remainders which pass it is from.
pub(crate) proof fn lemma_interlaced(row: int, height: int)
    requires
        0 <= row < height,
    ensures
        ({
            let a = pass_rows(height, 0, 8);
            let b = pass_rows(height, 4, 8);
            let c = pass_rows(height, 2, 4);
            let y = interlaced(row, height);
            &&& 0 <= y < height
            &&& y % 8 == 0 <==> row < a
            &&& y % 8 == 4 <==> a <= row < a + b
            &&& y % 4 == 2 <==> a + b <= row < a + b + c
        }),
{
    lemma_passes(height);
    let a = pass_rows(height, 0, 8);
    let b = pass_rows(height, 4, 8);
    let c = pass_rows(height, 2, 4);
    let y = interlaced(row, height);
    if row < a {
        assert(y % 8 == 0);
    } else if row < a + b {
        assert(y % 8 == 4);
    } else if row < a + b + c {
        assert(y % 4 == 2);
    } else {
        assert(y % 2 == 1);
    }
}

/// A picture as it is read.
struct Raw {
    left: u16,
    top: u16,
    width: u16,
    height: u16,
    interlaced: bool,
    indices: Vec<u8>,
    palette: Vec<u8>,
    control: Control,
}

impl Raw {
    spec fn pic(self) -> Picture {
        Picture {
            left: self.left,
            top: self.top,
            width: self.width,
            height: self.height,
            interlaced: self.interlaced,
            indices: self.indices@,
            palette: self.palette@,
            control: self.control,
        }
    }
}

/// The pictures that were read.
spec fn pics_of(raws: Seq<Raw>) -> Seq<Picture> {
    Seq::new(raws.len(), |i: int| raws[i].pic())
}

/// How many bytes a color table takes.
pub fn table_bytes(packed: u8) -> (r: usize)
    ensures
        r == table_size(packed),
        r <= 768,
{
    let n: u8 = packed & 7;
    assert(packed & 7 <= 7) by (bit_vector);
    proof {
        power2::lemma2_to64();
    }
    if n == 0 {
        6
    } else if n == 1 {
        12
    } else if n == 2 {
        24
    } else if n == 3 {
        48
    } else if n == 4 {
        96
    } else if n == 5 {
        192
    } else if n == 6 {
        384
    } else {
        768
    }
}

/// Where the chain of sub-blocks that begins at `pos` ends.
fn skip_subblocks(b: &[u8], pos: usize) -> (r: Option<usize>)
    ensures
        match sub_end(b@, pos as int) {
            Some(end) => r == Some(end as usize) && pos < end <= b.len(),
            None => r is None,
        },
{
    let mut at: usize = pos;
    while at < b.len()
        invariant
            pos <= at,
            sub_end(b@, pos as int) == sub_end(b@, at as int),
        decreases b.len() - at,
    {
        let n: usize = b[at] as usize;
        if n == 0 {
            return Some(at + 1);
        }
        if b.len() - at <= n + 1 {
            assert(sub_end(b@, at + n + 1) is None);
            return None;
        }
        at = at + n + 1;
    }
    None
}

/// What the control block at `pos` says.
fn parse_gce(b: &[u8], pos: usize) -> (r: Option<Control>)
    requires
        pos <= b.len(),
    ensures
        r == control_at(b@, pos as int),
{
    if b.len() - pos < 8 || b[pos + 2] < 4 {
        return None;
    }
    let packed: u8 = b[pos + 3];
    let cs: u64 = le_u16(b, pos + 4) as u64;
    let delay: u64 = if cs == 0 {
        100
    } else {
        cs * 10
    };
    let transparent = if packed & 0x10 != 0 {
        Some(b[pos + 6])
    } else {
        None
    };
    Some(Control { delay, disposal: packed & 7, transparent })
}

/// The data in the chain of sub-blocks that begins at `pos`, and where the chain ends.
fn read_subblocks(b: &[u8], pos: usize) -> (r: Option<(Vec<u8>, usize)>)
    ensures
        match sub_data(b@, pos as int) {
            Some((d, end)) => r matches Some((v, e)) && v@ == d && e == end && pos < end <= b.len(),
            None => r is None,
        },
{
    let mut data: Vec<u8> = Vec::new();
    let mut at: usize = pos;
    while at < b.len()
        invariant
            pos <= at,
            match sub_data(b@, at as int) {
                Some((rest, end)) => sub_data(b@, pos as int) == Some((data@ + rest, end)),
                None => sub_data(b@, pos as int) is None,
            },
        decreases b.len() - at,
    {
        let n: usize = b[at] as usize;
        if b.len() - at < n + 1 {
            return None;
        }
        if n == 0 {
            assert(data@ + Seq::<u8>::empty() =~= data@);
            return Some((data, at + 1));
        }
        let mut chunk = copy(b, at + 1, at + 1 + n);
        let ghost before = data@;
        data.append(&mut chunk);
        at = at + 1 + n;
        proof {
            match sub_data(b@, at as int) {
                Some((rest, end)) => {
                    let piece = b@.subrange(at - n, at as int);
                    assert(before + (piece + rest) =~= data@ + rest);
                },
                None => {},
            }
        }
    }
    None
}

/// The picture at `pos`, and where it ends.
fn parse_image(
    b: &[u8],
    pos: usize,
    global: &Vec<u8>,
    canvas_w: u16,
    canvas_h: u16,
    control: Control,
) -> (r: Option<(Raw, usize)>)
    requires
        pos < b.len(),
        canvas_w * canvas_h <= MAX_PIXELS,
    ensures
        match picture_at(b@, pos as int, global@, canvas_w as int, canvas_h as int, control) {
            Some((pic, end)) => r matches Some((raw, e)) && raw.pic() == pic && e == end && pic.fits(
                canvas_w as int,
                canvas_h as int,
            ) && pos < end <= b.len(),
            None => r is None,
        },
{
    proof {
        lemma_picture_end(b@, pos as int, global@, canvas_w as int, canvas_h as int, control);
    }
    if b.len() - pos < 10 {
        return None;
    }
    let left: u16 = le_u16(b, pos + 1);
    let top: u16 = le_u16(b, pos + 3);
    let width: u16 = le_u16(b, pos + 5);
    let height: u16 = le_u16(b, pos + 7);
    let packed: u8 = b[pos + 9];
    if width == 0 || height == 0 {
        return None;
    }
    if left as u32 + width as u32 > canvas_w as u32 || top as u32 + height as u32
        > canvas_h as u32 {
        return None;
    }
    let mut at: usize = pos + 10;
    let palette: Vec<u8> = if packed & 0x80 != 0 {
        let n: usize = table_bytes(packed);
        if b.len() - at < n {
            return None;
        }
        let t = copy(b, at, at + n);
        at = at + n;
        t
    } else {
        let t = copy(global, 0, global.len());
        assert(global@.subrange(0, global@.len() as int) =~= global@);
        t
    };
    if palette.len() < 3 || at >= b.len() {
        return None;
    }
    let min_code_size: u8 = b[at];
    let (data, end) = match read_subblocks(b, at + 1) {
        Some(d) => d,
        None => {
            return None;
        },
    };
    assert(width * height <= canvas_w * canvas_h) by (nonlinear_arith)
        requires
            width <= canvas_w,
            height <= canvas_h,
    ;
    let expect: usize = width as usize * height as usize;
    let indices = match lzw_decode(&data, min_code_size, expect) {
        Some(v) => v,
        None => {
            return None;
        },
    };
    let raw = Raw {
        left,
        top,
        width,
        height,
        interlaced: packed & 0x40 != 0,
        indices,
        palette,
        control,
    };
    Some((raw, end))
}

/// The row of the picture that is stored as row `row`.
fn interlaced_row(row: usize, height: usize) -> (r: usize)
    requires
        row < height <= 0xffff,
    ensures
        r == interlaced(row as int, height as int),
        r < height,
{
    proof {
        law_interlace_permutes(row as int, row as int, height as int);
    }
    let a: usize = (height + 7) / 8;
    let b: usize = if height > 4 {
        (height + 3) / 8
    } else {
        0
    };
    let c: usize = if height > 2 {
        (height + 1) / 4
    } else {
        0
    };
    if row < a {
        row * 8
    } else if row < a + b {
        4 + (row - a) * 8
    } else if row < a + b + c {
        2 + (row - a - b) * 4
    } else {
        1 + (row - a - b - c) * 2
    }
}

/// A row and a column inside the canvas are a pixel of it.
proof fn lemma_pixel(x: int, y: int, w: int, h: int)
    requires
        0 <= x < w,
        0 <= y < h,
    ensures
        0 <= y * w + x < w * h,
{
    assert(y * w + x < w * h) by (nonlinear_arith)
        requires
            x < w,
            0 <= y < h,
            w > 0,
    ;
    assert(0 <= y * w) by (nonlinear_arith)
        requires
            0 <= y,
            0 <= w,
    ;
}

/// Draws the picture on the canvas.
fn draw(canvas: &mut Vec<u8>, raw: &Raw, canvas_w: u16, canvas_h: u16)
    requires
        raw.pic().fits(canvas_w as int, canvas_h as int),
        old(canvas)@.len() == canvas_w * canvas_h * 4,
        canvas_w * canvas_h <= MAX_PIXELS,
    ensures
        final(canvas)@ == raw.pic().shown(old(canvas)@, canvas_w as int),
        final(canvas)@.len() == old(canvas)@.len(),
{
    let w: usize = raw.width as usize;
    let cw: usize = canvas_w as usize;
    let n: usize = raw.indices.len();
    let ghost pic = raw.pic();
    let ghost start = canvas@;
    let mut i: usize = 0;
    while i < n
        invariant
            i <= n,
            n == raw.indices@.len(),
            pic == raw.pic(),
            w == raw.width,
            cw == canvas_w,
            pic.fits(canvas_w as int, canvas_h as int),
            canvas@ == pic.drawn(start, cw as int, i as int),
            canvas@.len() == canvas_w * canvas_h * 4,
            canvas_w * canvas_h <= MAX_PIXELS,
        decreases n - i,
    {
        let index: u8 = raw.indices[i];
        let skip = match raw.control.transparent {
            Some(t) => t == index,
            None => false,
        };
        let entry: usize = index as usize * 3;
        let row: usize = i / w;
        proof {
            assert(row < raw.height) by (nonlinear_arith)
                requires
                    i < raw.width * raw.height,
                    row == i as int / raw.width as int,
                    raw.width > 0,
            ;
        }
        if !skip && entry + 3 <= raw.palette.len() {
            let y: usize = if raw.interlaced {
                interlaced_row(row, raw.height as usize)
            } else {
                row
            };
            proof {
                lemma_pixel(
                    raw.left + i as int % w as int,
                    raw.top + y as int,
                    canvas_w as int,
                    canvas_h as int,
                );
            }
            let at: usize = ((raw.top as usize + y) * cw + raw.left as usize + i % w) * 4;
            canvas.set(at, raw.palette[entry]);
            canvas.set(at + 1, raw.palette[entry + 1]);
            canvas.set(at + 2, raw.palette[entry + 2]);
            canvas.set(at + 3, 255);
            assert(at == pic.byte_of(cw as int, i as int));
        }
        i = i + 1;
        assert(canvas@ == pic.painted(pic.drawn(start, cw as int, i - 1), cw as int, i - 1));
    }
}

/// Clears the place of the picture.
fn erase(canvas: &mut Vec<u8>, raw: &Raw, canvas_w: u16)
    requires
        canvas_w > 0,
        raw.left + raw.width <= canvas_w,
    ensures
        final(canvas)@ == Seq::new(
            old(canvas)@.len(),
            |k: int|
                if raw.pic().covers(canvas_w as int, k) {
                    0u8
                } else {
                    old(canvas)@[k]
                },
        ),
{
    let ghost start = canvas@;
    let cw: usize = canvas_w as usize;
    let n: usize = canvas.len();
    let mut k: usize = 0;
    while k < n
        invariant
            k <= n,
            n == start.len(),
            canvas@.len() == n,
            cw == canvas_w,
            cw > 0,
            forall|j: int|
                0 <= j < k ==> #[trigger] canvas@[j] == (if raw.pic().covers(canvas_w as int, j) {
                    0u8
                } else {
                    start[j]
                }),
            forall|j: int| k <= j < n ==> #[trigger] canvas@[j] == start[j],
        decreases n - k,
    {
        let x: usize = k / 4 % cw;
        let y: usize = k / 4 / cw;
        if raw.left as usize <= x && x < raw.left as usize + raw.width as usize && raw.top as usize
            <= y && y < raw.top as usize + raw.height as usize {
            canvas.set(k, 0);
        }
        k = k + 1;
    }
    assert(canvas@ =~= Seq::new(
        start.len(),
        |k: int|
            if raw.pic().covers(canvas_w as int, k) {
                0u8
            } else {
                start[k]
            },
    ));
}

/// Draws the pictures one after the other.
fn composite(width: u16, height: u16, raws: &Vec<Raw>) -> (r: Animation)
    requires
        width > 0,
        width * height <= MAX_PIXELS,
        forall|i: int|
            0 <= i < raws@.len() ==> (#[trigger] raws@[i]).pic().fits(width as int, height as int),
    ensures
        is_animation(r, pics_of(raws@), width as int, height as int),
        r.wf(),
{
    let area: usize = width as usize * height as usize * 4;
    let mut canvas: Vec<u8> = vec![0u8; area];
    let ghost pics = pics_of(raws@);
    let ghost cw = width as int;
    let ghost ch = height as int;
    let mut frames: Vec<Frame> = Vec::new();
    assert(canvas@ =~= canvas_before(pics, cw, ch, 0));
    let mut i: usize = 0;
    while i < raws.len()
        invariant
            i <= raws@.len(),
            width > 0,
            cw == width,
            ch == height,
            pics == pics_of(raws@),
            width * height <= MAX_PIXELS,
            forall|i: int|
                0 <= i < raws@.len() ==> (#[trigger] raws@[i]).pic().fits(
                    width as int,
                    height as int,
                ),
            canvas@ == canvas_before(pics, cw, ch, i as int),
            canvas@.len() == width * height * 4,
            frames@.len() == i,
            forall|j: int|
                0 <= j < i ==> (#[trigger] frames@[j]).rgba@ == pics[j].shown(
                    canvas_before(pics, cw, ch, j),
                    cw,
                ) && frames@[j].delay == pics[j].control.delay && frames@[j].rgba@.len() == width
                    * height * 4,
        decreases raws@.len() - i,
    {
        let raw = &raws[i];
        assert(raws@[i as int].pic().fits(cw, ch));
        assert(pics[i as int] == raw.pic());
        let saved = canvas.clone();
        assert(saved@ =~= canvas@);
        draw(&mut canvas, raw, width, height);
        let shown = canvas.clone();
        assert(shown@ =~= canvas@);
        frames.push(Frame { rgba: shown, delay: raw.control.delay });
        if raw.control.disposal == 2 {
            erase(&mut canvas, raw, width);
        } else if raw.control.disposal == 3 {
            canvas = saved;
        }
        i = i + 1;
    }
    Animation { width, height, frames }
}

/// Whether the bytes begin as a GIF does.
pub fn is_gif(b: &[u8]) -> (r: bool)
    ensures
        r == (b@.len() >= 6 && (b@.subrange(0, 6) == seq![0x47u8, 0x49, 0x46, 0x38, 0x39, 0x61]
            || b@.subrange(0, 6) == seq![0x47u8, 0x49, 0x46, 0x38, 0x37, 0x61])),
{
    if b.len() < 6 {
        return false;
    }
    let r = b[0] == 0x47 && b[1] == 0x49 && b[2] == 0x46 && b[3] == 0x38 && (b[4] == 0x39 || b[4]
        == 0x37) && b[5] == 0x61;
    proof {
        let s = b@.subrange(0, 6);
        assert(s[0] == b@[0] && s[1] == b@[1] && s[2] == b@[2] && s[3] == b@[3] && s[4] == b@[4]
            && s[5] == b@[5]);
        if r {
            if b@[4] == 0x39 {
                assert(s =~= seq![0x47u8, 0x49, 0x46, 0x38, 0x39, 0x61]);
            } else {
                assert(s =~= seq![0x47u8, 0x49, 0x46, 0x38, 0x37, 0x61]);
            }
        }
    }
    r
}

/// Decodes a GIF. Every frame of the result is a picture of the whole canvas.
pub fn decode(b: &[u8]) -> (r: Option<Animation>)
    ensures
        match file_pictures(b@) {
            Some(pics) => r matches Some(a) && is_animation(a, pics, bytes::le16(b@, 6), bytes::le16(b@, 8))
                && a.wf() && a.frames@.len() >= 1,
            None => r is None,
        },
{
    if b.len() < 13 || !is_gif(b) {
        return None;
    }
    let width: u16 = le_u16(b, 6);
    let height: u16 = le_u16(b, 8);
    let packed: u8 = b[10];
    assert(width * height <= 0xffff * 0xffff) by (nonlinear_arith)
        requires
            width <= 0xffff,
            height <= 0xffff,
    ;
    if width == 0 || height == 0 || width as u32 * height as u32 > MAX_PIXELS {
        return None;
    }
    let mut pos: usize = 13;
    if packed & 0x80 != 0 {
        let n: usize = table_bytes(packed);
        if b.len() - pos < n {
            return None;
        }
        pos = pos + n;
    }
    let global = copy(b, 13, pos);
    let mut raws: Vec<Raw> = Vec::new();
    let mut control = Control { delay: 0, disposal: 0, transparent: None };
    let ghost all = pictures(
        b@,
        pos as int,
        global@,
        width as int,
        height as int,
        no_control(),
        Seq::<Picture>::empty(),
    );
    assert(pics_of(raws@) =~= Seq::<Picture>::empty());
    while pos < b.len()
        invariant_except_break
            all == pictures(
                b@,
                pos as int,
                global@,
                width as int,
                height as int,
                control,
                pics_of(raws@),
            ),
        invariant
            width > 0,
            width * height <= MAX_PIXELS,
            forall|i: int|
                0 <= i < raws@.len() ==> (#[trigger] raws@[i]).pic().fits(
                    width as int,
                    height as int,
                ),
            file_pictures(b@) == (match all {
                Some(p) => if p.len() == 0 {
                    None
                } else {
                    Some(p)
                },
                None => None::<Seq<Picture>>,
            }),
        ensures
            all == Some(pics_of(raws@)),
        decreases b.len() - pos,
    {
        let kind: u8 = b[pos];
        if kind == 0x3b {
            break;
        } else if kind == 0x21 {
            if b.len() - pos < 2 {
                return None;
            }
            if b[pos + 1] == 0xf9 {
                control = match parse_gce(b, pos) {
                    Some(c) => c,
                    None => {
                        return None;
                    },
                };
            }
            pos = match skip_subblocks(b, pos + 2) {
                Some(end) => end,
                None => {
                    return None;
                },
            };
        } else if kind == 0x2c {
            if raws.len() >= MAX_FRAMES {
                break;
            }
            let (raw, end) = match parse_image(b, pos, &global, width, height, control) {
                Some(p) => p,
                None => {
                    return None;
                },
            };
            let ghost before = pics_of(raws@);
            let ghost pic = raw.pic();
            raws.push(raw);
            assert(pics_of(raws@) =~= before.push(pic));
            pos = end;
            control = Control { delay: 0, disposal: 0, transparent: None };
        } else {
            return None;
        }
    }
    if raws.len() == 0 {
        return None;
    }
    Some(composite(width, height, &raws))
}

} // verus!
