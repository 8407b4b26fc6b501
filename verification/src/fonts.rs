//! Which font draws what the bitmaps lack: where it is looked for, which is preferred, and what is
//! taken from what it drew.
use crate::anim;
use crate::config;
use crate::config::{join_path, TextFont};
use crate::strings;
use crate::strings::{chars_of, same};
use crate::text;
use crate::text::{font_rank, score_family, Ink};
use vstd::prelude::*;

verus! {

// ---- where it is looked for ----

/// Files that are tried before any directory, in this order.
pub const KNOWN: [&'static str; 10] = [
    "/usr/share/fonts/noto-cjk/NotoSansCJK-Regular.ttc",
    "/usr/share/fonts/opentype/noto/NotoSansCJK-Regular.ttc",
    "/usr/share/fonts/opentype/google-noto-cjk/NotoSansCJK-Regular.ttc",
    "/usr/share/fonts/noto/NotoSansCJK-Regular.ttc",
    "/usr/share/fonts/adobe-source-han-sans/SourceHanSansSC-Regular.otf",
    "/usr/share/fonts/source-han-sans/SourceHanSansSC-Regular.otf",
    "/usr/share/fonts/wenquanyi/wqy-microhei.ttc",
    "/usr/share/fonts/truetype/wqy/wqy-microhei.ttc",
    "/usr/share/fonts/TTF/LXGWWenKai-Regular.ttf",
    "/usr/share/fonts/truetype/lxgw-wenkai/LXGWWenKai-Regular.ttf",
];

/// A directory in front of which the paths `all` stand, where it is an absolute path that is not
/// among them yet.
pub open spec fn added(all: Seq<Seq<char>>, dir: Seq<char>) -> Seq<Seq<char>> {
    if dir.len() > 0 && dir[0] == '/' && !all.contains(dir) {
        all.push(dir)
    } else {
        all
    }
}

/// The directories with fonts in them: those of the system, then those of the user.
pub open spec fn roots(data: Option<Seq<char>>, home: Option<Seq<char>>) -> Seq<Seq<char>> {
    let a = added(added(Seq::empty(), "/usr/share/fonts"@), "/usr/local/share/fonts"@);
    let b = match config::absolute_path(data) {
        Some(d) => added(a, config::joined_path(d, "fonts"@)),
        None => a,
    };
    match home {
        Some(h) => added(
            added(b, config::joined_path(h, ".local/share/fonts"@)),
            config::joined_path(h, ".fonts"@),
        ),
        None => b,
    }
}

/// Adds a directory.
fn add_root(all: &mut Vec<String>, dir: String)
    ensures
        config::texts(final(all)@) == added(config::texts(old(all)@), dir@),
{
    let c = chars_of(dir.as_str());
    if c.len() == 0 || c[0] != '/' {
        return;
    }
    let ghost before = config::texts(all@);
    let mut i: usize = 0;
    while i < all.len()
        invariant
            i <= all@.len(),
            all@ == old(all)@,
            before == config::texts(all@),
            forall|k: int| 0 <= k < i ==> before[k] != dir@,
        decreases all@.len() - i,
    {
        if same(all[i].as_str(), dir.as_str()) {
            assert(before[i as int] == dir@);
            return;
        }
        i = i + 1;
    }
    assert(!before.contains(dir@));
    all.push(dir);
    assert(config::texts(all@) =~= before.push(dir@));
}

/// The directories with fonts in them, each of them once and as an absolute path.
pub fn font_roots(data: Option<&str>, home: Option<&str>) -> (r: Vec<String>)
    ensures
        config::texts(r@) == roots(config::text_at(data), config::text_at(home)),
{
    let mut all: Vec<String> = Vec::new();
    assert(config::texts(all@) =~= Seq::<Seq<char>>::empty());
    add_root(&mut all, String::from_str("/usr/share/fonts"));
    add_root(&mut all, String::from_str("/usr/local/share/fonts"));
    if let Some(d) = config::absolute(data) {
        add_root(&mut all, join_path(d.as_str(), "fonts"));
    }
    if let Some(h) = home {
        add_root(&mut all, join_path(h, ".local/share/fonts"));
        add_root(&mut all, join_path(h, ".fonts"));
    }
    all
}

/// Whether a list of paths holds only absolute ones and none of them twice.
pub open spec fn distinct(all: Seq<Seq<char>>) -> bool {
    &&& forall|i: int| 0 <= i < all.len() ==> (#[trigger] all[i]).len() > 0 && all[i][0] == '/'
    &&& forall|i: int, j: int| 0 <= i < j < all.len() ==> #[trigger] all[i] != #[trigger] all[j]
}

proof fn lemma_added(all: Seq<Seq<char>>, dir: Seq<char>)
    requires
        distinct(all),
    ensures
        distinct(added(all, dir)),
        added(all, dir).len() >= all.len(),
{
}

/// No directory is looked through twice, and none depends on where the program runs.
pub proof fn law_roots_are_distinct(data: Option<Seq<char>>, home: Option<Seq<char>>)
    ensures
        distinct(roots(data, home)),
        roots(data, home).len() > 0,
{
    let none = Seq::<Seq<char>>::empty();
    reveal_strlit("/usr/share/fonts");
    let a0 = added(none, "/usr/share/fonts"@);
    assert("/usr/share/fonts"@[0] == '/');
    lemma_added(none, "/usr/share/fonts"@);
    let a = added(a0, "/usr/local/share/fonts"@);
    lemma_added(a0, "/usr/local/share/fonts"@);
    let b = match config::absolute_path(data) {
        Some(d) => added(a, config::joined_path(d, "fonts"@)),
        None => a,
    };
    if let Some(d) = config::absolute_path(data) {
        lemma_added(a, config::joined_path(d, "fonts"@));
    }
    if let Some(h) = home {
        lemma_added(b, config::joined_path(h, ".local/share/fonts"@));
        lemma_added(
            added(b, config::joined_path(h, ".local/share/fonts"@)),
            config::joined_path(h, ".fonts"@),
        );
    }
}

/// How deep below a root fonts are looked for.
pub const MAX_DEPTH: usize = 4;

/// How many entries are looked at in all.
pub const MAX_ENTRIES: usize = 20_000;

/// What becomes of an entry of a directory.
#[derive(Clone, Copy, Debug, PartialEq, Eq, Structural)]
pub enum Step {
    /// It is passed over.
    Skip,
    /// It is a directory to look through.
    Enter,
    /// It is a font, with this rank.
    Font(u8),
}

/// What becomes of an entry: what begins with a dot is hidden, a directory is looked through, and of
/// the files only fonts count.
pub open spec fn step_for(name: Seq<char>, is_dir: bool) -> Step {
    if name.len() > 0 && name[0] == '.' {
        Step::Skip
    } else if is_dir {
        Step::Enter
    } else if text::rank(name) > 0 {
        Step::Font(text::rank(name) as u8)
    } else {
        Step::Skip
    }
}

/// A walk through the directories, which ends when so many entries were seen.
pub struct Walk {
    pub budget: usize,
}

impl Walk {
    /// A walk that has just begun.
    pub fn new() -> (r: Self)
        ensures
            r.budget == MAX_ENTRIES,
    {
        Walk { budget: MAX_ENTRIES }
    }

    /// Whether a directory at that depth is looked through.
    pub fn enters(&self, depth: usize) -> (r: bool)
        ensures
            r == (depth < MAX_DEPTH && self.budget > 0),
    {
        depth < MAX_DEPTH && self.budget > 0
    }

    /// What becomes of the next entry; nothing is looked at any more once enough was.
    pub fn see(&mut self, name: &str, is_dir: bool) -> (r: Option<Step>)
        ensures
            match r {
                Some(s) => old(self).budget > 0 && final(self).budget == old(self).budget - 1 && s
                    == step_for(name@, is_dir),
                None => old(self).budget == 0 && *final(self) == *old(self),
            },
    {
        if self.budget == 0 {
            return None;
        }
        self.budget = self.budget - 1;
        let c = chars_of(name);
        if c.len() > 0 && c[0] == '.' {
            return Some(Step::Skip);
        }
        if is_dir {
            return Some(Step::Enter);
        }
        let rank: u8 = font_rank(name);
        if rank > 0 {
            Some(Step::Font(rank))
        } else {
            Some(Step::Skip)
        }
    }
}

// ---- which is preferred ----

/// A path with its separators before all other characters, so that paths compare part by part.
pub open spec fn path_key(p: Seq<char>) -> Seq<char> {
    Seq::new(
        p.len(),
        |i: int|
            if p[i] == '/' {
                '\u{0}'
            } else {
                p[i]
            },
    )
}

/// A font that was found: its rank, and its path.
pub struct Candidate {
    pub rank: u8,
    pub path: String,
}

/// A font that was found.
pub ghost struct Found {
    pub rank: u8,
    pub key: Seq<char>,
}

/// The fonts that were found.
pub open spec fn found(v: Seq<Candidate>) -> Seq<Found> {
    Seq::new(v.len(), |i: int| Found { rank: v[i].rank, key: path_key(v[i].path@) })
}

/// Whether the font `i` is tried before the font `j`: by rank, then by path, so that it is the same
/// font each time.
pub open spec fn tried_before(v: Seq<Found>, i: int, j: int) -> bool {
    if v[i].rank != v[j].rank {
        v[i].rank > v[j].rank
    } else if v[i].key != v[j].key {
        anim::name_before(v[i].key, v[j].key)
    } else {
        i < j
    }
}

proof fn lemma_tried(v: Seq<Found>, i: int, j: int, k: int)
    ensures
        !tried_before(v, i, i),
        tried_before(v, i, j) ==> !tried_before(v, j, i),
        tried_before(v, i, j) || tried_before(v, j, i) || i == j,
        tried_before(v, i, j) && tried_before(v, j, k) ==> tried_before(v, i, k),
{
    anim::lemma_name_order(v[i].key, v[j].key, v[k].key);
    anim::lemma_name_order(v[j].key, v[k].key, v[i].key);
    anim::lemma_name_order(v[i].key, v[k].key, v[j].key);
}

fn key_of(p: &String) -> (r: Vec<char>)
    ensures
        r@ == path_key(p@),
{
    let c = chars_of(p.as_str());
    let mut out: Vec<char> = Vec::new();
    let mut i: usize = 0;
    while i < c.len()
        invariant
            i <= c@.len(),
            out@ == path_key(c@).take(i as int),
        decreases c@.len() - i,
    {
        out.push(
            if c[i] == '/' {
                '\u{0}'
            } else {
                c[i]
            },
        );
        i = i + 1;
        assert(out@ =~= path_key(c@).take(i as int));
    }
    assert(out@ =~= path_key(c@));
    out
}

fn is_tried_before(v: &[Candidate], i: usize, j: usize) -> (r: bool)
    requires
        i < v@.len(),
        j < v@.len(),
    ensures
        r == tried_before(found(v@), i as int, j as int),
{
    if v[i].rank != v[j].rank {
        return v[i].rank > v[j].rank;
    }
    let a = key_of(&v[i].path);
    let b = key_of(&v[j].path);
    if strings::same_chars(&a, &b) {
        i < j
    } else {
        anim::is_name_before(&a, &b)
    }
}

/// Whether the font `i` is still to be tried after the font `last`, or when none was.
pub open spec fn is_left(v: Seq<Found>, last: Option<usize>, i: int) -> bool {
    &&& 0 <= i < v.len()
    &&& last matches Some(l) ==> tried_before(v, l as int, i)
}

/// The font that is tried after the font `last`, or first of all; none, where none is left.
pub fn next_candidate(v: &[Candidate], last: Option<usize>) -> (r: Option<usize>)
    requires
        last matches Some(l) ==> l < v@.len(),
    ensures
        match r {
            Some(i) => is_left(found(v@), last, i as int) && forall|j: int|
                #[trigger]
                is_left(found(v@), last, j) && j != i ==> tried_before(found(v@), i as int, j),
            None => forall|j: int| !#[trigger] is_left(found(v@), last, j),
        },
{
    let ghost f = found(v@);
    let mut best: Option<usize> = None;
    let mut i: usize = 0;
    while i < v.len()
        invariant
            i <= v@.len(),
            f == found(v@),
            last matches Some(l) ==> l < v@.len(),
            match best {
                Some(b) => b < i && is_left(f, last, b as int) && forall|j: int|
                    j < i && j != b && #[trigger] is_left(f, last, j) ==> tried_before(
                        f,
                        b as int,
                        j,
                    ),
                None => forall|j: int| j < i ==> !#[trigger] is_left(f, last, j),
            },
        decreases v@.len() - i,
    {
        let left = match last {
            Some(l) => is_tried_before(v, l, i),
            None => true,
        };
        if left {
            assert(is_left(f, last, i as int));
            match best {
                None => {
                    best = Some(i);
                },
                Some(b) => {
                    if is_tried_before(v, i, b) {
                        proof {
                            assert forall|j: int|
                                j < i + 1 && j != i && #[trigger] is_left(f, last, j) implies tried_before(
                                f,
                                i as int,
                                j,
                            ) by {
                                lemma_tried(f, i as int, b as int, j);
                            }
                        }
                        best = Some(i);
                    } else {
                        proof {
                            lemma_tried(f, i as int, b as int, i as int);
                        }
                    }
                },
            }
        } else {
            assert(!is_left(f, last, i as int));
        }
        i = i + 1;
    }
    best
}

/// The faces of a font file: the first with the highest score so far.
#[derive(Clone, Copy, Debug)]
pub struct Faces {
    pub best: Option<(u8, usize)>,
}

/// More faces of one file than this are not tried.
pub const MAX_SUBFACES: usize = 8;

impl Faces {
    /// No face yet.
    pub fn new() -> (r: Self)
        ensures
            r.best is None,
    {
        Faces { best: None }
    }

    /// Takes in the face `i` with the name of its family, and says whether it is good enough to try
    /// no other.
    pub fn offer(&mut self, i: usize, family: &str) -> (r: bool)
        ensures
            r == (text::family_score(family@) >= 3),
            final(self).best == (match old(self).best {
                Some((s, k)) if s >= text::family_score(family@) => Some((s, k)),
                _ => Some((text::family_score(family@) as u8, i)),
            }),
    {
        let score: u8 = score_family(family);
        match self.best {
            Some((s, _)) => {
                if score > s {
                    self.best = Some((score, i));
                }
            },
            None => {
                self.best = Some((score, i));
            },
        }
        score >= 3
    }
}

/// What is said where the font that was asked for cannot be opened.
pub fn font_warning(wanted: &TextFont, opened: bool) -> (r: Option<String>)
    ensures
        match r {
            Some(w) => wanted matches TextFont::Path(p) && !opened && w@ == "⚠️ text_font = "@ + p@
                + " 打不开，改用自动发现的字体"@,
            None => !(wanted is Path) || opened,
        },
{
    match wanted {
        TextFont::Path(p) => {
            if opened {
                return None;
            }
            let mut w = String::from_str("⚠️ text_font = ");
            w.append(p.as_str());
            w.append(" 打不开，改用自动发现的字体");
            Some(w)
        },
        _ => None,
    }
}

// ---- what is taken from what it drew ----

/// Where a face of libfreetype keeps what is read of it, in bytes from its beginning.
pub const FACE_FACE_FLAGS: usize = 16;

pub const FACE_FAMILY_NAME: usize = 40;

pub const FACE_UNITS_PER_EM: usize = 136;

pub const FACE_ASCENDER: usize = 138;

pub const FACE_GLYPH: usize = 152;

/// Where a glyph of libfreetype keeps what is read of it, in bytes from its beginning.
pub const SLOT_ADVANCE_X: usize = 128;

pub const SLOT_ROWS: usize = 152;

pub const SLOT_WIDTH: usize = 156;

pub const SLOT_PITCH: usize = 160;

pub const SLOT_BUFFER: usize = 168;

pub const SLOT_PIXEL_MODE: usize = 178;

pub const SLOT_LEFT: usize = 192;

pub const SLOT_TOP: usize = 196;

/// The longest side of a glyph that is believed.
pub const MAX_DIM: u32 = 192;

/// One byte of coverage for each pixel.
pub const PIXEL_MODE_GRAY: u8 = 2;

/// How a font library says it drew a glyph.
#[derive(Clone, Copy, Debug)]
pub struct Slot {
    pub rows: u32,
    pub width: u32,
    /// From one row to the next, in bytes; below zero where the last row comes first.
    pub pitch: i32,
    pub mode: u8,
    pub left: i32,
    pub top: i32,
    /// How far the pen moves on, in 64ths of a pixel.
    pub advance: i64,
}

impl Slot {
    /// Bytes from one row to the next, in either direction.
    pub open spec fn stride(self) -> int {
        if self.pitch < 0 {
            -self.pitch
        } else {
            self.pitch as int
        }
    }

    /// Whether what it says can be: a picture of gray pixels that is neither empty nor too large,
    /// whose rows do not overlap.
    pub open spec fn believable(self) -> bool {
        let span = (self.rows - 1) * self.pitch + self.width;
        &&& 0 < self.rows <= MAX_DIM
        &&& 0 < self.width <= MAX_DIM
        &&& self.mode == PIXEL_MODE_GRAY
        &&& self.stride() >= self.width
        &&& 0 < span <= MAX_DIM * MAX_DIM
    }

    /// How far the pen moves on in whole pixels: at least one, and one where it is beyond all
    /// measure.
    pub open spec fn step(self) -> int {
        let n = if self.advance < 0 {
            63int / 64
        } else {
            (self.advance + 63) / 64
        };
        if n < 1 || n > u32::MAX {
            1
        } else {
            n
        }
    }

    /// How many bytes of the picture there are to read, up to the end of its last row; none, where
    /// what it says cannot be.
    pub fn bytes(&self) -> (r: Option<usize>)
        ensures
            r is Some <==> self.believable(),
            r matches Some(n) ==> n == (self.rows - 1) * self.stride() + self.width && n <= MAX_DIM
                * MAX_DIM,
    {
        if self.rows == 0 || self.width == 0 || self.rows > MAX_DIM || self.width > MAX_DIM
            || self.mode != PIXEL_MODE_GRAY {
            return None;
        }
        let pitch: i64 = self.pitch as i64;
        let stride: i64 = if pitch < 0 {
            -pitch
        } else {
            pitch
        };
        if stride < self.width as i64 {
            return None;
        }
        assert(-192 * 0x8000_0000 <= (self.rows - 1) * pitch <= 192 * 0x8000_0000) by (nonlinear_arith)
            requires
                1 <= self.rows <= 192,
                -0x8000_0000 <= pitch <= 0x8000_0000,
        ;
        let span: i64 = (self.rows as i64 - 1) * pitch + self.width as i64;
        if span <= 0 || span > MAX_DIM as i64 * MAX_DIM as i64 {
            return None;
        }
        proof {
            if pitch < 0 && self.rows > 1 {
                assert((self.rows - 1) * pitch <= pitch) by (nonlinear_arith)
                    requires
                        self.rows - 1 >= 1,
                        pitch < 0,
                ;
            }
            if self.rows == 1 {
                assert((self.rows - 1) * pitch == 0 && (self.rows - 1) * stride == 0) by (nonlinear_arith)
                    requires
                        self.rows == 1,
                ;
            }
        }
        Some(span as usize)
    }

    /// The place of the byte of a pixel: in the last row first where the pitch is below zero.
    pub open spec fn place(self, row: int, col: int) -> int {
        if self.pitch < 0 {
            (self.rows - 1 - row) * self.stride() + col
        } else {
            row * self.stride() + col
        }
    }

    /// What the font drew, copied from the bytes of the picture without what fills its rows up.
    pub fn ink(&self, bytes: &[u8]) -> (r: Option<Ink>)
        requires
            self.believable() ==> bytes@.len() >= (self.rows - 1) * self.stride() + self.width,
        ensures
            r is Some <==> self.believable(),
            r matches Some(k) ==> {
                &&& k.w == self.width && k.h == self.rows && k.left == self.left && k.top
                    == self.top
                &&& k.advance == self.step()
                &&& k.gray@.len() == self.rows * self.width
                &&& forall|y: int, x: int|
                    0 <= y < self.rows && 0 <= x < self.width ==> k.gray@[y * self.width + x]
                        == bytes@[#[trigger] self.place(y, x)]
            },
    {
        let total: usize = match self.bytes() {
            Some(n) => n,
            None => {
                return None;
            },
        };
        let stride: usize = if self.pitch < 0 {
            (-(self.pitch as i64)) as usize
        } else {
            self.pitch as usize
        };
        let w: usize = self.width as usize;
        let rows: usize = self.rows as usize;
        let mut gray: Vec<u8> = Vec::new();
        let mut y: usize = 0;
        while y < rows
            invariant
                y <= rows,
                rows == self.rows,
                w == self.width,
                stride == self.stride(),
                self.believable(),
                total == (self.rows - 1) * self.stride() + self.width,
                total <= bytes@.len(),
                gray@.len() == y * w,
                forall|k: int, x: int|
                    0 <= k < y && 0 <= x < w ==> gray@[k * w + x] == bytes@[#[trigger] self.place(
                        k,
                        x,
                    )],
            decreases rows - y,
        {
            let from: usize = if self.pitch < 0 {
                rows - 1 - y
            } else {
                y
            };
            let ghost start = y * w;
            proof {
                lemma_row(from as int, rows as int, stride as int, w as int, total as int);
            }
            let base: usize = from * stride;
            let mut x: usize = 0;
            while x < w
                invariant
                    y < rows,
                    rows == self.rows,
                    x <= w,
                    w == self.width,
                    stride == self.stride(),
                    from == (if self.pitch < 0 {
                        rows - 1 - y
                    } else {
                        y as int
                    }),
                    base == from * stride,
                    base + w <= total,
                    total <= bytes@.len(),
                    start == y * w,
                    gray@.len() == start + x,
                    forall|k: int, c: int|
                        0 <= k < y && 0 <= c < w ==> gray@[k * w + c]
                            == bytes@[#[trigger] self.place(k, c)],
                    forall|c: int|
                        0 <= c < x ==> gray@[start + c] == bytes@[#[trigger] self.place(y as int, c)],
                decreases w - x,
            {
                let ghost before = gray@;
                gray.push(bytes[base + x]);
                proof {
                    assert forall|k: int, c: int| 0 <= k < y && 0 <= c < w implies gray@[k * w + c]
                        == bytes@[#[trigger] self.place(k, c)] by {
                        assert(0 <= k * w + c < start) by (nonlinear_arith)
                            requires
                                0 <= k < y,
                                0 <= c < w,
                                start == y * w,
                        ;
                        assert(before[k * w + c] == bytes@[self.place(k, c)]);
                    }
                }
                x = x + 1;
            }
            proof {
                assert((y + 1) * w == y * w + w) by (nonlinear_arith);
                assert forall|k: int, c: int| 0 <= k < y + 1 && 0 <= c < w implies gray@[k * w + c]
                    == bytes@[#[trigger] self.place(k, c)] by {
                    if k == y {
                        assert(gray@[start + c] == bytes@[self.place(y as int, c)]);
                    }
                }
            }
            y = y + 1;
        }
        let n: i128 = if self.advance < 0 {
            0
        } else {
            (self.advance as i128 + 63) / 64
        };
        let advance: u32 = if n < 1 || n > u32::MAX as i128 {
            1
        } else {
            n as u32
        };
        Some(Ink { w: self.width, h: self.rows, left: self.left, top: self.top, advance, gray })
    }
}

/// A row ends where the picture does, or before.
proof fn lemma_row(row: int, rows: int, stride: int, w: int, total: int)
    requires
        0 <= row < rows,
        0 <= stride,
        total == (rows - 1) * stride + w,
        0 <= total,
    ensures
        0 <= row * stride,
        row * stride + w <= total,
{
    assert(0 <= row * stride <= (rows - 1) * stride) by (nonlinear_arith)
        requires
            0 <= row <= rows - 1,
            0 <= stride,
    ;
}

/// How far a font rises above the baseline at that size: by what it says of itself in units of its
/// own, or four fifths of the size where it says nothing.
pub open spec fn ascent(units: int, ascender: int, px: int) -> int {
    if units == 0 || ascender <= 0 {
        if px * 4 / 5 < 1 {
            1
        } else {
            px * 4 / 5
        }
    } else {
        ascender * px / units
    }
}

/// How far a font rises above the baseline at that size.
pub fn ascent_px(units_per_em: u32, ascender: i32, px: u32) -> (r: i32)
    requires
        px * 4 <= i32::MAX,
        ascent(units_per_em as int, ascender as int, px as int) <= i32::MAX,
    ensures
        r == ascent(units_per_em as int, ascender as int, px as int),
{
    if units_per_em == 0 || ascender <= 0 {
        let n: i32 = px as i32 * 4 / 5;
        if n < 1 {
            1
        } else {
            n
        }
    } else {
        assert(0 <= ascender * px <= 0x7FFF_FFFF * 0xFFFF_FFFF) by (nonlinear_arith)
            requires
                0 <= ascender <= 0x7FFF_FFFF,
                0 <= px <= 0xFFFF_FFFF,
        ;
        assert(ascender as int * px as int / (units_per_em as int) >= 0) by (nonlinear_arith)
            requires
                ascender as int * px as int >= 0,
                units_per_em > 0,
        ;
        (ascender as i64 * px as i64 / units_per_em as i64) as i32
    }
}

/// The pen moves on by whole pixels: as many as the glyph needs, the last of them in part, and at
/// least one.
pub proof fn law_pen_moves_by_whole_pixels(s: Slot)
    ensures
        s.step() >= 1,
        0 < s.advance <= 64 * u32::MAX ==> 64 * (s.step() - 1) < s.advance <= 64 * s.step(),
        s.advance <= 0 ==> s.step() == 1,
{
}

/// The rows of a glyph are as far apart as the pitch says, and the pixels of each follow each other;
/// below zero the pitch says that the rows come from the bottom up.
pub proof fn law_rows_are_a_pitch_apart(s: Slot, row: int, col: int)
    ensures
        s.pitch >= 0 ==> s.place(row, col) == row * s.pitch + col,
        s.pitch < 0 ==> s.place(row, col) == (s.rows - 1) * -s.pitch + row * s.pitch + col,
        s.place(row, col + 1) == s.place(row, col) + 1,
        s.place(row + 1, col) == s.place(row, col) + s.pitch,
{
    let (n, p) = (s.rows as int, s.stride());
    assert((n - 1 - row) * p == (n - 1) * p - row * p && (n - 1 - (row + 1)) * p == (n - 1) * p - row * p
        - p && (row + 1) * p == row * p + p && row * -p == -(row * p)) by (nonlinear_arith);
}

/// A font rises above the baseline by its own measure, scaled to its size in pixels and rounded down;
/// one without a measure by four fifths of its size, and by a pixel at least.
pub proof fn law_ascent_is_scaled(units: int, ascender: int, px: int)
    requires
        0 <= units,
        0 <= px,
    ensures
        units > 0 && ascender > 0 ==> ascent(units, ascender, px) * units <= ascender * px < (ascent(
            units,
            ascender,
            px,
        ) + 1) * units,
        units == 0 || ascender <= 0 ==> {
            let n = ascent(units, ascender, px);
            n >= 1 && (px >= 2 ==> 5 * n <= 4 * px < 5 * n + 5)
        },
{
    if units > 0 && ascender > 0 {
        let q = ascender * px / units;
        vstd::arithmetic::div_mod::lemma_fundamental_div_mod(ascender * px, units);
        assert(q * units == units * q && (q + 1) * units == units * q + units) by (nonlinear_arith);
    }
}

/// Of two fonts one is always tried first: the one that suits better, else the one whose path comes
/// first, part by part.
pub proof fn law_fonts_have_an_order(v: Seq<Found>, i: int, j: int)
    requires
        0 <= i < v.len(),
        0 <= j < v.len(),
        i != j,
    ensures
        tried_before(v, i, j) != tried_before(v, j, i),
        v[i].rank > v[j].rank ==> tried_before(v, i, j),
{
    anim::law_names_have_an_order(v[i].key, v[j].key);
}

} // verus!
