//! Animations: whole pictures with the time that each is shown.
use crate::bytes;
use crate::bytes::copy;
use crate::config;
use crate::config::expand_tilde;
use crate::gif;
use crate::png;
use crate::strings;
use crate::strings::{chars_of, lower_all, same};
use vstd::prelude::*;

verus! {

/// One picture: the RGBA bytes of the whole canvas, row by row from the top.
pub struct Frame {
    pub rgba: Vec<u8>,
    /// Milliseconds for which it is shown.
    pub delay: u64,
}

/// Pictures of one size.
pub struct Animation {
    pub width: u16,
    pub height: u16,
    pub frames: Vec<Frame>,
}

/// Milliseconds for which a frame counts: its delay, at least one.
pub open spec fn span(f: Frame) -> int {
    if f.delay == 0 {
        1
    } else {
        f.delay as int
    }
}

/// Milliseconds for which the first `n` frames are shown.
pub open spec fn span_of(frames: Seq<Frame>, n: int) -> int
    decreases n,
{
    if n <= 0 {
        0
    } else {
        span_of(frames, n - 1) + span(frames[n - 1])
    }
}

proof fn lemma_span_grows(frames: Seq<Frame>, a: int, b: int)
    requires
        0 <= a <= b,
    ensures
        span_of(frames, a) + (b - a) <= span_of(frames, b),
    decreases b - a,
{
    if a < b {
        lemma_span_grows(frames, a, b - 1);
    }
}

impl Animation {
    /// Whether each frame covers the canvas.
    pub open spec fn wf(self) -> bool {
        forall|i: int|
            0 <= i < self.frames@.len() ==> (#[trigger] self.frames@[i]).rgba@.len() == self.width
                * self.height * 4
    }

    /// Which frame is shown `elapsed` milliseconds after the start. After the last frame the first
    /// one follows again.
    pub open spec fn shows(self, elapsed: int, r: int) -> bool {
        let n = self.frames@.len() as int;
        if n <= 1 {
            r == 0
        } else {
            let t = elapsed % span_of(self.frames@, n);
            0 <= r < n && span_of(self.frames@, r) <= t < span_of(self.frames@, r + 1)
        }
    }

    /// Which frame is shown `elapsed` milliseconds after the start.
    pub fn frame_at(&self, elapsed: u64) -> (r: usize)
        ensures
            self.shows(elapsed as int, r as int),
    {
        let n: usize = self.frames.len();
        if n <= 1 {
            return 0;
        }
        let ghost fs = self.frames@;
        let mut total: u128 = 0;
        let mut i: usize = 0;
        while i < n
            invariant
                i <= n,
                n == self.frames@.len(),
                fs == self.frames@,
                total == span_of(fs, i as int),
                i <= total <= i * 0xFFFF_FFFF_FFFF_FFFF,
            decreases n - i,
        {
            let d: u64 = self.frames[i].delay;
            let step: u64 = if d == 0 {
                1
            } else {
                d
            };
            assert(i * 0xFFFF_FFFF_FFFF_FFFF + 0xFFFF_FFFF_FFFF_FFFF == (i + 1) * 0xFFFF_FFFF_FFFF_FFFF);
            total = total + step as u128;
            i = i + 1;
        }
        let goal: u128 = elapsed as u128 % total;
        let mut t: u128 = goal;
        i = 0;
        while i < n
            invariant
                i <= n,
                n == self.frames@.len(),
                n > 1,
                fs == self.frames@,
                total == span_of(fs, n as int),
                goal < total,
                goal == elapsed as int % total as int,
                t == goal - span_of(fs, i as int),
            decreases n - i,
        {
            let delay: u64 = self.frames[i].delay;
            let d: u64 = if delay == 0 {
                1
            } else {
                delay
            };
            if t < d as u128 {
                return i;
            }
            t = t - d as u128;
            i = i + 1;
        }
        n - 1
    }
}

/// At each moment exactly one frame is shown, and after a whole round the same one again.
pub proof fn law_frames_loop(a: Animation, elapsed: int, r1: int, r2: int)
    requires
        0 <= elapsed,
        a.shows(elapsed, r1),
        a.shows(elapsed + span_of(a.frames@, a.frames@.len() as int), r2),
    ensures
        r1 == r2,
{
    let n = a.frames@.len() as int;
    let total = span_of(a.frames@, n);
    if n > 1 {
        lemma_span_grows(a.frames@, 0, n);
        vstd::arithmetic::div_mod::lemma_mod_add_multiples_vanish(elapsed, total);
        if r1 < r2 {
            lemma_span_grows(a.frames@, r1 + 1, r2);
        } else if r2 < r1 {
            lemma_span_grows(a.frames@, r2 + 1, r1);
        }
    }
}

// ---- files ----

/// A file with more bytes than this is not read.
pub const MAX_FILE_BYTES: u64 = 2_097_152;

/// Whether the bytes are those of an animation.
pub open spec fn decodes(b: Seq<u8>) -> bool {
    match png::file_scan(b) {
        Some(s) => s.good(),
        None => gif::file_pictures(b) is Some,
    }
}

/// Whether `a` is the animation that the bytes hold.
pub open spec fn is_decoded(b: Seq<u8>, a: Animation) -> bool {
    match png::file_scan(b) {
        Some(s) => s.is_animation(a),
        None => gif::is_animation(
            a,
            gif::file_pictures(b)->0,
            bytes::le16(b, 6),
            bytes::le16(b, 8),
        ),
    }
}

/// The animation that the bytes of a file hold. What they begin with tells which kind of file it
/// is.
pub fn decode(b: &[u8]) -> (r: Option<Animation>)
    ensures
        r is Some <==> decodes(b@),
        r matches Some(a) ==> is_decoded(b@, a) && a.wf() && a.frames@.len() >= 1,
{
    if png::is_png(b) {
        assert(b@.subrange(0, 6)[0] == b@[0] && b@.subrange(0, 8)[0] == b@[0]);
        png::decode(b)
    } else if gif::is_gif(b) {
        gif::decode(b)
    } else {
        None
    }
}

/// The animation that a file holds, where it is not too large.
pub fn load(b: &[u8]) -> (r: Option<Animation>)
    ensures
        r is Some <==> b@.len() <= MAX_FILE_BYTES && decodes(b@),
        r matches Some(a) ==> is_decoded(b@, a) && a.wf() && a.frames@.len() >= 1,
{
    if b.len() as u64 > MAX_FILE_BYTES {
        None
    } else {
        decode(b)
    }
}

// ---- folders ----

/// Milliseconds for which each picture of a folder is shown.
pub const FOLDER_DELAY: u64 = 100;

/// More files of a folder than this are not read.
pub const MAX_FOLDER_FILES: usize = 64;

/// Whether a file with this name is taken for a picture.
pub open spec fn names_picture(name: Seq<char>) -> bool {
    let l = strings::lowered(name);
    l.len() >= 4 && (l.subrange(l.len() - 4, l.len() as int) == ".png"@ || l.subrange(
        l.len() - 4,
        l.len() as int,
    ) == ".gif"@)
}

/// Whether a file with this name is taken for a picture.
pub fn is_picture_name(name: &str) -> (r: bool)
    ensures
        r == names_picture(name@),
{
    let c = chars_of(name);
    let l = lower_all(&c);
    if l.len() < 4 {
        return false;
    }
    let end = &l[l.len() - 4..l.len()];
    strings::chars_are(end, ".png") || strings::chars_are(end, ".gif")
}

/// Whether the name `a` comes before the name `b`: by the first character in which they differ.
pub open spec fn name_before(a: Seq<char>, b: Seq<char>) -> bool
    decreases a.len(),
{
    if b.len() == 0 {
        false
    } else if a.len() == 0 {
        true
    } else if a[0] != b[0] {
        a[0] < b[0]
    } else {
        name_before(a.drop_first(), b.drop_first())
    }
}

/// Names are in one order.
pub proof fn lemma_name_order(a: Seq<char>, b: Seq<char>, c: Seq<char>)
    ensures
        !name_before(a, a),
        name_before(a, b) ==> !name_before(b, a),
        name_before(a, b) || name_before(b, a) || a == b,
        name_before(a, b) && name_before(b, c) ==> name_before(a, c),
    decreases a.len(),
{
    if a.len() > 0 && b.len() > 0 {
        let c1 = if c.len() > 0 {
            c.drop_first()
        } else {
            c
        };
        lemma_name_order(a.drop_first(), b.drop_first(), c1);
        if a[0] == b[0] && a.drop_first() == b.drop_first() {
            assert(a =~= seq![a[0]] + a.drop_first());
            assert(b =~= seq![b[0]] + b.drop_first());
        }
    } else {
        if a.len() == 0 && b.len() == 0 {
            assert(a =~= b);
        }
        if a.len() > 0 {
            lemma_name_order(a.drop_first(), b, c);
        }
    }
}

/// Whether the file `i` of a folder comes before the file `j`: by name, and by place where the
/// names are the same.
pub open spec fn file_before(names: Seq<Seq<char>>, i: int, j: int) -> bool {
    name_before(names[i], names[j]) || (names[i] == names[j] && i < j)
}

proof fn lemma_file_order(names: Seq<Seq<char>>, i: int, j: int, k: int)
    ensures
        !file_before(names, i, i),
        file_before(names, i, j) ==> !file_before(names, j, i),
        file_before(names, i, j) || file_before(names, j, i) || i == j,
        file_before(names, i, j) && file_before(names, j, k) ==> file_before(names, i, k),
{
    lemma_name_order(names[i], names[j], names[k]);
    lemma_name_order(names[j], names[k], names[i]);
}

/// Whether the name `a` comes before the name `b`.
pub fn is_name_before(a: &[char], b: &[char]) -> (r: bool)
    ensures
        r == name_before(a@, b@),
{
    let mut i: usize = 0;
    assert(a@.skip(0) =~= a@ && b@.skip(0) =~= b@);
    while i < a.len() && i < b.len() && a[i] == b[i]
        invariant
            i <= a@.len(),
            i <= b@.len(),
            name_before(a@, b@) == name_before(a@.skip(i as int), b@.skip(i as int)),
        decreases a@.len() - i,
    {
        assert(a@.skip(i as int).drop_first() =~= a@.skip(i + 1));
        assert(b@.skip(i as int).drop_first() =~= b@.skip(i + 1));
        i = i + 1;
    }
    if i >= b.len() {
        false
    } else if i >= a.len() {
        true
    } else {
        assert(a@.skip(i as int)[0] == a@[i as int] && b@.skip(i as int)[0] == b@[i as int]);
        a[i] < b[i]
    }
}

fn is_file_before(names: &[String], i: usize, j: usize) -> (r: bool)
    requires
        i < names@.len(),
        j < names@.len(),
    ensures
        r == file_before(config::texts(names@), i as int, j as int),
{
    let a = chars_of(names[i].as_str());
    let b = chars_of(names[j].as_str());
    if is_name_before(&a, &b) {
        true
    } else {
        i < j && strings::same_chars(&a, &b)
    }
}

/// Whether the file `i` is a picture that comes after the files that were picked.
pub open spec fn is_next(names: Seq<Seq<char>>, picked: Seq<usize>, i: int) -> bool {
    &&& 0 <= i < names.len()
    &&& names_picture(names[i])
    &&& picked.len() > 0 ==> file_before(names, picked.last() as int, i)
}

/// Whether these are the files of a folder that are shown, in their order: the pictures by name,
/// and no more of them than are read.
pub open spec fn is_pick(names: Seq<Seq<char>>, picked: Seq<usize>) -> bool {
    &&& picked.len() <= MAX_FOLDER_FILES
    &&& forall|k: int|
        0 <= k < picked.len() ==> (#[trigger] picked[k]) < names.len() && names_picture(
            names[picked[k] as int],
        )
    &&& forall|k: int, l: int|
        0 <= k < l < picked.len() ==> file_before(
            names,
            #[trigger] picked[k] as int,
            #[trigger] picked[l] as int,
        )
    &&& forall|i: int|
        0 <= i < names.len() && names_picture(#[trigger] names[i]) ==> picked.contains(i as usize) || (
        picked.len() == MAX_FOLDER_FILES && file_before(names, picked.last() as int, i))
}

/// The first of the pictures that come after the files that were picked.
fn next_file(names: &[String], picked: &Vec<usize>) -> (r: Option<usize>)
    requires
        forall|k: int| 0 <= k < picked@.len() ==> (#[trigger] picked@[k]) < names@.len(),
    ensures
        match r {
            Some(i) => is_next(config::texts(names@), picked@, i as int) && forall|j: int|
                #[trigger]
                is_next(config::texts(names@), picked@, j) && j != i ==> file_before(
                    config::texts(names@),
                    i as int,
                    j,
                ),
            None => forall|j: int| !#[trigger] is_next(config::texts(names@), picked@, j),
        },
{
    let ghost all = config::texts(names@);
    let mut best: Option<usize> = None;
    let mut i: usize = 0;
    while i < names.len()
        invariant
            i <= names@.len(),
            all == config::texts(names@),
            forall|k: int| 0 <= k < picked@.len() ==> (#[trigger] picked@[k]) < names@.len(),
            match best {
                Some(b) => b < i && is_next(all, picked@, b as int) && forall|j: int|
                    j < i && j != b && #[trigger] is_next(all, picked@, j) ==> file_before(
                        all,
                        b as int,
                        j,
                    ),
                None => forall|j: int| j < i ==> !#[trigger] is_next(all, picked@, j),
            },
        decreases names@.len() - i,
    {
        assert(all[i as int] == names@[i as int]@);
        let after = picked.len() == 0 || is_file_before(names, picked[picked.len() - 1], i);
        if after && is_picture_name(names[i].as_str()) {
            assert(is_next(all, picked@, i as int));
            match best {
                None => {
                    best = Some(i);
                },
                Some(b) => {
                    if is_file_before(names, i, b) {
                        proof {
                            assert forall|j: int|
                                j < i + 1 && j != i && #[trigger] is_next(all, picked@, j) implies file_before(
                                all,
                                i as int,
                                j,
                            ) by {
                                lemma_file_order(all, i as int, b as int, j);
                            }
                        }
                        best = Some(i);
                    } else {
                        proof {
                            lemma_file_order(all, i as int, b as int, i as int);
                        }
                    }
                },
            }
        } else {
            assert(!is_next(all, picked@, i as int));
        }
        i = i + 1;
    }
    best
}

/// The files of a folder that are shown, in their order.
pub fn pick(names: &[String]) -> (r: Vec<usize>)
    ensures
        is_pick(config::texts(names@), r@),
{
    let ghost all = config::texts(names@);
    let mut out: Vec<usize> = Vec::new();
    assert(names.len() == all.len());
    while out.len() < MAX_FOLDER_FILES
        invariant
            all == config::texts(names@),
            all.len() <= usize::MAX,
            out@.len() <= MAX_FOLDER_FILES,
            forall|k: int|
                0 <= k < out@.len() ==> (#[trigger] out@[k]) < all.len() && names_picture(
                    all[out@[k] as int],
                ),
            forall|k: int, l: int|
                0 <= k < l < out@.len() ==> file_before(
                    all,
                    #[trigger] out@[k] as int,
                    #[trigger] out@[l] as int,
                ),
            forall|i: int|
                0 <= i < all.len() && names_picture(#[trigger] all[i]) ==> out@.contains(i as usize)
                    || is_next(all, out@, i),
        decreases MAX_FOLDER_FILES - out@.len(),
    {
        match next_file(names, &out) {
            None => {
                assert forall|i: int|
                    0 <= i < all.len() && names_picture(#[trigger] all[i]) implies out@.contains(
                    i as usize,
                ) by {
                    assert(!is_next(all, out@, i));
                }
                return out;
            },
            Some(n) => {
                let ghost before = out@;
                out.push(n);
                proof {
                    assert forall|k: int, l: int| 0 <= k < l < out@.len() implies file_before(
                        all,
                        #[trigger] out@[k] as int,
                        #[trigger] out@[l] as int,
                    ) by {
                        if l == before.len() && k < l - 1 {
                            lemma_file_order(
                                all,
                                before[k] as int,
                                before[before.len() - 1] as int,
                                n as int,
                            );
                        }
                    }
                    assert forall|i: int|
                        0 <= i < all.len() && names_picture(#[trigger] all[i]) implies out@.contains(
                        i as usize,
                    ) || is_next(all, out@, i) by {
                        if before.contains(i as usize) {
                            let k = choose|k: int| 0 <= k < before.len() && before[k] == i as usize;
                            assert(out@[k] == i as usize);
                        } else if i == n {
                            assert(out@[before.len() as int] == i as usize);
                        } else {
                            assert(is_next(all, before, i));
                        }
                    }
                }
            },
        }
    }
    out
}

/// The size of the pictures and the pictures themselves that `n` files of a folder give: of each
/// that could be read the first, where it is of the size of those before it.
pub open spec fn gathered(list: Seq<Option<Animation>>, n: int) -> Option<((u16, u16), Seq<Seq<u8>>)>
    decreases n,
{
    if n <= 0 {
        Some(((0u16, 0u16), Seq::empty()))
    } else {
        match gathered(list, n - 1) {
            None => None,
            Some((size, pics)) => match list[n - 1] {
                None => Some((size, pics)),
                Some(a) => if pics.len() >= MAX_FOLDER_FILES {
                    Some((size, pics))
                } else if a.frames@.len() == 0 {
                    None
                } else if size == (0u16, 0u16) || size == (a.width, a.height) {
                    Some(((a.width, a.height), pics.push(a.frames@[0].rgba@)))
                } else {
                    Some((size, pics))
                },
            },
        }
    }
}

/// The pictures of frames.
pub open spec fn pictures(frames: Seq<Frame>) -> Seq<Seq<u8>> {
    Seq::new(frames.len(), |i: int| frames[i].rgba@)
}

/// The animation that the files of a folder make, a frame for each; what could not be read is left
/// out, and so is what is not of the size of the first.
pub fn assemble(list: &Vec<Option<Animation>>) -> (r: Option<Animation>)
    ensures
        match (r, gathered(list@, list@.len() as int)) {
            (Some(a), Some((size, pics))) => {
                &&& pics.len() > 0
                &&& (a.width, a.height) == size
                &&& pictures(a.frames@) == pics
                &&& forall|i: int|
                    0 <= i < a.frames@.len() ==> (#[trigger] a.frames@[i]).delay == FOLDER_DELAY
            },
            (None, Some((size, pics))) => pics.len() == 0,
            (Some(_), None) => false,
            (None, None) => true,
        },
{
    let mut frames: Vec<Frame> = Vec::new();
    let (mut w, mut h): (u16, u16) = (0, 0);
    let mut i: usize = 0;
    assert(pictures(frames@) =~= Seq::<Seq<u8>>::empty());
    while i < list.len()
        invariant
            i <= list@.len(),
            frames@.len() <= MAX_FOLDER_FILES,
            gathered(list@, i as int) == Some(((w, h), pictures(frames@))),
            forall|k: int| 0 <= k < frames@.len() ==> (#[trigger] frames@[k]).delay == FOLDER_DELAY,
        decreases list@.len() - i,
    {
        if let Some(a) = &list[i] {
            if frames.len() < MAX_FOLDER_FILES {
                if a.frames.len() == 0 {
                    proof {
                        lemma_gathered_none(list@, i + 1, list@.len() as int);
                    }
                    return None;
                }
                if (w == 0 && h == 0) || (w == a.width && h == a.height) {
                    w = a.width;
                    h = a.height;
                    let rgba = copy(&a.frames[0].rgba, 0, a.frames[0].rgba.len());
                    let ghost before = pictures(frames@);
                    assert(rgba@ =~= a.frames@[0].rgba@);
                    frames.push(Frame { rgba, delay: FOLDER_DELAY });
                    assert(pictures(frames@) =~= before.push(a.frames@[0].rgba@));
                }
            }
        }
        i = i + 1;
    }
    if frames.len() == 0 {
        None
    } else {
        Some(Animation { width: w, height: h, frames })
    }
}

proof fn lemma_gathered_none(list: Seq<Option<Animation>>, a: int, b: int)
    requires
        0 <= a <= b,
        gathered(list, a) is None,
    ensures
        gathered(list, b) is None,
    decreases b - a,
{
    if a < b {
        lemma_gathered_none(list, a, b - 1);
    }
}

/// The pictures of a folder are of one size: that of the first that could be read.
pub proof fn law_folder_has_one_size(list: Seq<Option<Animation>>, n: int, k: int)
    requires
        0 <= n <= list.len(),
        forall|i: int|
            0 <= i < list.len() ==> ((#[trigger] list[i]) matches Some(a) ==> a.wf() && a.frames@.len() > 0
                && a.width > 0 && a.height > 0),
    ensures
        gathered(list, n) matches Some((size, pics)) && (0 <= k < pics.len() ==> pics[k].len()
            == size.0 * size.1 * 4),
    decreases n,
{
    if n > 0 {
        law_folder_has_one_size(list, n - 1, k);
        lemma_gathered_size(list, n - 1);
        let (size, pics) = gathered(list, n - 1)->0;
        if let Some(a) = list[n - 1] {
            if pics.len() < MAX_FOLDER_FILES && size == (0u16, 0u16) {
                assert(pics.len() == 0);
            }
        }
    }
}

proof fn lemma_gathered_size(list: Seq<Option<Animation>>, n: int)
    requires
        0 <= n <= list.len(),
        forall|i: int|
            0 <= i < list.len() ==> ((#[trigger] list[i]) matches Some(a) ==> a.wf() && a.frames@.len() > 0
                && a.width > 0 && a.height > 0),
    ensures
        gathered(list, n) matches Some((size, pics)) && (pics.len() > 0 ==> size != (0u16, 0u16)),
    decreases n,
{
    if n > 0 {
        lemma_gathered_size(list, n - 1);
    }
}

// ---- how fast ----

/// What sets the speed of the animation.
#[derive(Clone, Copy, Debug, PartialEq, Eq, Structural)]
pub enum Throttle {
    /// Nothing: it is played as fast as it says itself.
    Off,
    /// How busy the processor is.
    Cpu,
    /// How full the memory is.
    Memory,
    /// How far the countdown has come.
    Timer,
    /// A speed that is configured.
    Fixed,
}

/// What sets the speed, by its name in the configuration.
pub open spec fn throttle_named(s: Seq<char>) -> Option<Throttle> {
    if s == "off"@ {
        Some(Throttle::Off)
    } else if s == "cpu"@ {
        Some(Throttle::Cpu)
    } else if s == "memory"@ {
        Some(Throttle::Memory)
    } else if s == "timer"@ {
        Some(Throttle::Timer)
    } else if s == "fixed"@ {
        Some(Throttle::Fixed)
    } else {
        None
    }
}

/// The speed under a load in percent, in thousandths of the true one: up to half of the load all of
/// it, and from there straight down to a quarter.
pub open spec fn slowed(load: int) -> int {
    if load <= 50 {
        1000
    } else if load >= 100 {
        250
    } else {
        1000 - 15 * (load - 50)
    }
}

impl Throttle {
    /// The name in the configuration.
    pub open spec fn text(self) -> Seq<char> {
        match self {
            Throttle::Off => "off"@,
            Throttle::Cpu => "cpu"@,
            Throttle::Memory => "memory"@,
            Throttle::Timer => "timer"@,
            Throttle::Fixed => "fixed"@,
        }
    }

    /// What sets the speed, by its name in the configuration.
    pub fn from_name(name: &str) -> (r: Option<Throttle>)
        ensures
            r == throttle_named(name@),
    {
        if same(name, "off") {
            Some(Throttle::Off)
        } else if same(name, "cpu") {
            Some(Throttle::Cpu)
        } else if same(name, "memory") {
            Some(Throttle::Memory)
        } else if same(name, "timer") {
            Some(Throttle::Timer)
        } else if same(name, "fixed") {
            Some(Throttle::Fixed)
        } else {
            None
        }
    }

    /// The name in the configuration.
    pub fn name(self) -> (r: &'static str)
        ensures
            r@ == self.text(),
    {
        match self {
            Throttle::Off => "off",
            Throttle::Cpu => "cpu",
            Throttle::Memory => "memory",
            Throttle::Timer => "timer",
            Throttle::Fixed => "fixed",
        }
    }

    /// The speed in thousandths of the true one. The loads, and `fixed`, are in percent.
    pub open spec fn pace(self, cpu: u8, mem: u8, timer: u8, fixed: u32) -> int {
        match self {
            Throttle::Off => 1000,
            Throttle::Cpu => slowed(cpu as int),
            Throttle::Memory => slowed(mem as int),
            Throttle::Timer => slowed(timer as int),
            Throttle::Fixed => 10 * fixed,
        }
    }

    /// The speed in thousandths of the true one. The loads, and `fixed`, are in percent.
    pub fn speed(self, cpu: u8, mem: u8, timer: u8, fixed: u32) -> (r: i64)
        ensures
            r == self.pace(cpu, mem, timer, fixed),
    {
        let load: i64 = match self {
            Throttle::Off => 0,
            Throttle::Cpu => cpu as i64,
            Throttle::Memory => mem as i64,
            Throttle::Timer => timer as i64,
            Throttle::Fixed => {
                return 10 * fixed as i64;
            },
        };
        if load <= 50 {
            1000
        } else if load >= 100 {
            250
        } else {
            1000 - 15 * (load - 50)
        }
    }
}

impl Default for Throttle {
    fn default() -> (r: Self)
        ensures
            r == Throttle::Off,
    {
        Throttle::Off
    }
}

/// What sets the speed is read back from its name.
pub proof fn law_throttle_names_roundtrip(t: Throttle)
    ensures
        throttle_named(t.text()) == Some(t),
{
    reveal_strlit("off");
    reveal_strlit("cpu");
    reveal_strlit("memory");
    reveal_strlit("timer");
    reveal_strlit("fixed");
    assert("off"@[0] == 'o' && "cpu"@[0] == 'c' && "memory"@[0] == 'm' && "timer"@[0] == 't'
        && "fixed"@[0] == 'f');
}

/// A load only ever slows an animation down, a larger one more than a smaller one, and never to less
/// than a quarter; a load of up to a half does not.
pub proof fn law_load_slows_down(a: int, b: int)
    requires
        a <= b,
    ensures
        250 <= slowed(b) <= slowed(a) <= 1000,
        a <= 50 ==> slowed(a) == 1000,
{
}

// ---- playing ----

/// An animation that is played, from a file or a folder.
pub struct Player {
    pub path: Option<String>,
    /// The size and the time of the last change when it was last looked at; for a folder the number
    /// of its files stands for the size.
    pub stamp: Option<(u64, u64)>,
    /// Whether there was a file or a folder at the last look.
    pub there: bool,
    pub anim: Option<Animation>,
    /// Nanoseconds for which it has been played. Time can pass slower here than it does elsewhere.
    pub clock: u64,
}

impl Player {
    /// What is played from `raw`, with the home directory in place of a `~`.
    pub fn new(raw: Option<&str>, home: Option<&str>) -> (r: Self)
        ensures
            config::text_of(r.path) == (match config::text_at(raw) {
                Some(p) if config::expanded(p, config::text_at(home)).len() > 0 => Some(
                    config::expanded(p, config::text_at(home)),
                ),
                _ => None,
            }),
            r.stamp is None,
            !r.there,
            r.anim is None,
            r.clock == 0,
    {
        let path = match raw {
            Some(p) => {
                let full = expand_tilde(p, home);
                if full.as_str().is_empty() {
                    None
                } else {
                    Some(full)
                }
            },
            None => None,
        };
        Player { path, stamp: None, there: false, anim: None, clock: 0 }
    }

    /// The speed that counts, in thousandths of the true one: never backwards, and at most four times
    /// as fast.
    pub open spec fn limited(speed: i64) -> int {
        if speed < 0 {
            0
        } else if speed > 4000 {
            4000
        } else {
            speed as int
        }
    }

    /// The clock that many nanoseconds later, at a speed.
    pub open spec fn later(self, by: u64, speed: i64) -> int {
        self.clock + by * Self::limited(speed) / 1000
    }

    /// Lets that many nanoseconds pass, at a speed in thousandths of the true one. The clock stops at
    /// the last moment that it can hold.
    pub fn advance(&mut self, by: u64, speed: i64)
        ensures
            *final(self) == (Player {
                clock: if old(self).later(by, speed) > u64::MAX {
                    u64::MAX
                } else {
                    old(self).later(by, speed) as u64
                },
                ..*old(self)
            }),
    {
        let speed: u128 = if speed < 0 {
            0
        } else if speed > 4000 {
            4000
        } else {
            speed as u128
        };
        assert(0 <= by * speed <= u64::MAX * 4000) by (nonlinear_arith)
            requires
                0 <= by <= u64::MAX,
                0 <= speed <= 4000,
        ;
        let clock: u128 = self.clock as u128 + by as u128 * speed / 1000;
        self.clock = if clock > u64::MAX as u128 {
            u64::MAX
        } else {
            clock as u64
        };
    }

    /// The player after a look at the file. Another animation begins at its beginning, and one whose
    /// file is gone waits for it to come back.
    pub open spec fn seen(self, stat: Option<(u64, u64)>) -> Player {
        if self.path is None || stat is None {
            Player { there: false, ..self }
        } else if stat == self.stamp {
            Player { there: true, ..self }
        } else {
            Player { stamp: stat, there: true, anim: None, clock: 0, ..self }
        }
    }

    /// Takes in a look at the file. There is nothing to show where there is no path or no file;
    /// else it says whether to load what is there now.
    pub fn refresh(&mut self, stat: Option<(u64, u64)>) -> (r: Option<bool>)
        ensures
            r == (if old(self).path is None || stat is None {
                None
            } else {
                Some(stat != old(self).stamp)
            }),
            *final(self) == old(self).seen(stat),
    {
        self.there = self.path.is_some() && stat.is_some();
        if self.path.is_none() {
            return None;
        }
        match stat {
            None => None,
            Some((len, at)) => {
                if let Some((l, a)) = self.stamp {
                    if l == len && a == at {
                        return Some(false);
                    }
                }
                self.stamp = stat;
                self.anim = None;
                self.clock = 0;
                Some(true)
            },
        }
    }

    /// Takes in what was loaded.
    pub fn fill(&mut self, anim: Option<Animation>)
        ensures
            *final(self) == (Player { anim, ..*old(self) }),
    {
        self.anim = anim;
    }

    /// What is shown: nothing where the file was gone at the last look or nothing was loaded, and
    /// else the frame of the moment, with the size of the canvas.
    pub open spec fn showing(self, r: Option<(&Frame, u16, u16)>) -> bool {
        match (r, self.anim) {
            (Some((f, w, h)), Some(a)) => self.there && w == a.width && h == a.height && exists|i: int|
                0 <= i < a.frames@.len() && a.shows(self.clock as int / 1_000_000, i) && f
                    == #[trigger] a.frames@[i],
            (None, Some(a)) => !self.there || a.frames@.len() == 0,
            (None, None) => true,
            _ => false,
        }
    }

    /// The frame that is shown now and the size of the canvas.
    pub fn current(&self) -> (r: Option<(&Frame, u16, u16)>)
        ensures
            self.showing(r),
    {
        if !self.there {
            return None;
        }
        match &self.anim {
            None => None,
            Some(a) => {
                if a.frames.len() == 0 {
                    return None;
                }
                let i: usize = a.frame_at(self.clock / 1_000_000);
                Some((&a.frames[i], a.width, a.height))
            },
        }
    }
}

/// Nothing is shown of a file that is gone; and when it comes back as it was, it is shown where it
/// stood.
pub proof fn law_nothing_is_shown_of_a_lost_file(p: Player, r: Option<(&Frame, u16, u16)>)
    ensures
        p.seen(None).showing(r) ==> r is None,
        p.path is Some && p.stamp is Some ==> p.seen(None).seen(p.stamp) == (Player {
            there: true,
            ..p
        }),
{
}

/// Each frame is shown for its own time, and at least for a millisecond, once those before it are
/// over; and so again in each round.
pub proof fn law_each_frame_has_its_time(a: Animation, r: int, t: int, rounds: int)
    requires
        2 <= a.frames@.len(),
        0 <= r < a.frames@.len(),
        0 <= t,
        t < a.frames@[r].delay || t == 0,
        0 <= rounds,
    ensures
        a.shows(
            rounds * span_of(a.frames@, a.frames@.len() as int) + span_of(a.frames@, r) + t,
            r,
        ),
        span_of(a.frames@, r + 1) == span_of(a.frames@, r) + (if a.frames@[r].delay > 0 {
            a.frames@[r].delay as int
        } else {
            1
        }),
        span_of(a.frames@, 0) == 0,
{
    let n = a.frames@.len() as int;
    let total = span_of(a.frames@, n);
    if r + 1 < n {
        lemma_span_grows(a.frames@, r + 1, n);
    }
    if r > 0 {
        lemma_span_grows(a.frames@, 0, r);
    }
    let at = span_of(a.frames@, r) + t;
    assert(rounds * total + at == total * rounds + at) by (nonlinear_arith);
    vstd::arithmetic::div_mod::lemma_mod_multiples_vanish(rounds, at, total);
    vstd::arithmetic::div_mod::lemma_small_mod(at as nat, total as nat);
}

/// The clock of an animation goes on by the time that has passed, at the true speed all of it, and
/// else as much of it as the speed says: never backwards, and at most four times as fast.
pub proof fn law_speed_scales_time(p: Player, by: u64, speed: i64)
    ensures
        p.later(by, 1000) == p.clock + by,
        speed <= 0 ==> p.later(by, speed) == p.clock,
        speed >= 4000 ==> p.later(by, speed) == p.clock + 4 * by,
        0 <= speed <= 4000 ==> {
            let gone = p.later(by, speed) - p.clock;
            1000 * gone <= by * speed < 1000 * gone + 1000
        },
{
    assert(by * 0 == 0 && by * 1000 == 1000 * by && by * 4000 == 4000 * by);
}

/// From half of the load on each percent more takes as much of the speed, down to a quarter at all
/// of it; and each load counts only where it sets the speed.
pub proof fn law_load_slows_evenly(load: int, cpu: u8, mem: u8, timer: u8, fixed: u32)
    ensures
        50 <= load < 100 ==> slowed(load) - slowed(load + 1) == 15,
        load >= 100 ==> slowed(load) == 250,
        Throttle::Off.pace(cpu, mem, timer, fixed) == 1000,
        Throttle::Cpu.pace(cpu, mem, timer, fixed) == slowed(cpu as int),
        Throttle::Memory.pace(cpu, mem, timer, fixed) == slowed(mem as int),
        Throttle::Timer.pace(cpu, mem, timer, fixed) == slowed(timer as int),
        Throttle::Fixed.pace(cpu, mem, timer, fixed) * 100 == 1000 * fixed,
{
}

/// Names have an order: of two different ones one comes first, and one that another begins with comes
/// before it.
pub proof fn law_names_have_an_order(a: Seq<char>, b: Seq<char>)
    ensures
        !name_before(a, a),
        a != b ==> name_before(a, b) != name_before(b, a),
        b.len() > 0 ==> name_before(a, a + b),
    decreases a.len(),
{
    if a.len() > 0 && b.len() > 0 {
        law_names_have_an_order(a.drop_first(), b.drop_first());
        if a[0] == b[0] && a.drop_first() == b.drop_first() {
            assert(a =~= seq![a[0]] + a.drop_first());
            assert(b =~= seq![b[0]] + b.drop_first());
        }
    }
    if a.len() > 0 {
        law_names_have_an_order(a.drop_first(), b);
        assert((a + b).drop_first() =~= a.drop_first() + b);
    } else {
        assert(a + b =~= b);
        if b.len() == 0 {
            assert(a =~= b);
        }
    }
}

/// What comes before something comes before all that comes after it.
pub proof fn law_names_follow_each_other(a: Seq<char>, b: Seq<char>, c: Seq<char>)
    requires
        name_before(a, b),
        name_before(b, c),
    ensures
        name_before(a, c),
    decreases a.len(),
{
    if a.len() > 0 && b.len() > 0 && c.len() > 0 && a[0] == b[0] && b[0] == c[0] {
        law_names_follow_each_other(a.drop_first(), b.drop_first(), c.drop_first());
    }
}

} // verus!
