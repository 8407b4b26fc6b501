//! The icon of the tray: 32 by 32 pixels, each as its alpha, red, green and blue.
use crate::anim::Frame;
use crate::single;
use crate::single::{round, ONE};
use crate::sysinfo::Sources;
use crate::tray::IconMode;
use vstd::prelude::*;

verus! {

/// How many pixels wide and high the icon is.
pub const SIDE: usize = 32;

/// One of the four bytes of a pixel.
pub open spec fn byte_of(p: (u8, u8, u8, u8), k: int) -> u8 {
    if k == 0 {
        p.0
    } else if k == 1 {
        p.1
    } else if k == 2 {
        p.2
    } else {
        p.3
    }
}

/// The bytes of the icon with the pixels `f`.
pub open spec fn picture(f: spec_fn(int, int) -> (u8, u8, u8, u8)) -> Seq<u8> {
    Seq::new(4096, |i: int| byte_of(f(i / 4 % 32, i / 128), i % 4))
}

/// How far a pixel is from the middle: four times the square of the distance.
pub open spec fn far(x: int, y: int) -> int {
    (2 * x - 31) * (2 * x - 31) + (2 * y - 31) * (2 * y - 31)
}

/// A pixel of the dial: a white ring around a dark disk, and nothing around it.
pub open spec fn face_pixel(x: int, y: int) -> (u8, u8, u8, u8) {
    if far(x, y) > 900 {
        (0, 0, 0, 0)
    } else if far(x, y) > 625 {
        (255, 255, 255, 255)
    } else {
        (255, 15, 15, 20)
    }
}

/// The color of a level: green, yellow from 60 on, and red from 85 on.
pub open spec fn level(percent: u8) -> (u8, u8, u8) {
    if percent < 60 {
        (80, 220, 120)
    } else if percent < 85 {
        (255, 200, 80)
    } else {
        (240, 90, 90)
    }
}

/// A pixel of a gauge: the dark disk is filled from its bottom up. A battery that is being charged
/// is green, however empty it is.
pub open spec fn gauge_pixel(percent: Option<u8>, charging: bool, x: int, y: int) -> (u8, u8, u8, u8) {
    match percent {
        Some(p) if far(x, y) <= 625 && 4 * y + p >= 112 => {
            let c = if charging {
                (80u8, 220u8, 120u8)
            } else {
                level(p)
            };
            (255, c.0, c.1, c.2)
        },
        _ => face_pixel(x, y),
    }
}

/// Appends the four bytes of a pixel.
fn put(px: &mut Vec<u8>, p: (u8, u8, u8, u8))
    ensures
        final(px)@ == old(px)@.push(p.0).push(p.1).push(p.2).push(p.3),
{
    px.push(p.0);
    px.push(p.1);
    px.push(p.2);
    px.push(p.3);
}

/// One more pixel of a picture.
proof fn lemma_next_pixel(f: spec_fn(int, int) -> (u8, u8, u8, u8), px: Seq<u8>, i: int)
    requires
        0 <= i < 1024,
        px == picture(f).take(4 * i),
    ensures
        ({
            let p = f(i % 32, i / 32);
            px.push(p.0).push(p.1).push(p.2).push(p.3) == picture(f).take(4 * (i + 1))
        }),
{
    let p = f(i % 32, i / 32);
    let goal = picture(f);
    let now = px.push(p.0).push(p.1).push(p.2).push(p.3);
    assert forall|j: int| 0 <= j < 4 * (i + 1) implies now[j] == goal[j] by {
        if j >= 4 * i {
            assert(j / 4 == i && j % 4 == j - 4 * i && j / 128 == i / 32);
        }
    }
    assert(now =~= goal.take(4 * (i + 1)));
}

/// How far a pixel is from the middle.
fn distance(x: i32, y: i32) -> (r: i32)
    requires
        0 <= x < 32,
        0 <= y < 32,
    ensures
        r == far(x as int, y as int),
{
    let (a, b): (i32, i32) = (2 * x - 31, 2 * y - 31);
    assert(a * a <= 961 && b * b <= 961 && 0 <= a * a && 0 <= b * b) by (nonlinear_arith)
        requires
            -31 <= a <= 31,
            -31 <= b <= 31,
    ;
    a * a + b * b
}

/// The color of a level.
pub fn level_color(percent: u8) -> (r: (u8, u8, u8))
    ensures
        r == level(percent),
{
    if percent < 60 {
        (80, 220, 120)
    } else if percent < 85 {
        (255, 200, 80)
    } else {
        (240, 90, 90)
    }
}

/// A gauge that is `percent` full; without a number, the empty dial.
pub fn gauge_pixmap(percent: Option<u8>, charging: bool) -> (r: (i32, i32, Vec<u8>))
    ensures
        r.0 == 32,
        r.1 == 32,
        r.2@ == picture(|x: int, y: int| gauge_pixel(percent, charging, x, y)),
{
    let mut px: Vec<u8> = Vec::new();
    let mut i: i32 = 0;
    let ghost f = |x: int, y: int| gauge_pixel(percent, charging, x, y);
    assert(px@ =~= picture(f).take(0));
    while i < 1024
        invariant
            0 <= i <= 1024,
            f == (|x: int, y: int| gauge_pixel(percent, charging, x, y)),
            px@ == picture(f).take(4 * i),
        decreases 1024 - i,
    {
        let (x, y): (i32, i32) = (i % 32, i / 32);
        let d: i32 = distance(x, y);
        let p: (u8, u8, u8, u8) = match percent {
            Some(n) if d <= 625 && 4 * y + n as i32 >= 112 => {
                let c: (u8, u8, u8) = if charging {
                    (80, 220, 120)
                } else {
                    level_color(n)
                };
                (255, c.0, c.1, c.2)
            },
            _ => if d > 900 {
                (0, 0, 0, 0)
            } else if d > 625 {
                (255, 255, 255, 255)
            } else {
                (255, 15, 15, 20)
            },
        };
        assert(p == gauge_pixel(percent, charging, x as int, y as int));
        proof {
            lemma_next_pixel(f, px@, i as int);
        }
        put(&mut px, p);
        i = i + 1;
    }
    assert(picture(f).take(4096) =~= picture(f));
    (32, 32, px)
}

/// A fuller gauge has each pixel filled that an emptier one has.
pub proof fn law_gauge_fills_up(a: u8, b: u8, charging: bool, x: int, y: int)
    requires
        a <= b,
    ensures
        gauge_pixel(Some(a), charging, x, y) != face_pixel(x, y) ==> gauge_pixel(
            Some(b),
            charging,
            x,
            y,
        ) != face_pixel(x, y),
        gauge_pixel(None, charging, x, y) == face_pixel(x, y),
        far(x, y) <= 625 && 0 <= y < 32 ==> gauge_pixel(Some(100), charging, x, y) != face_pixel(x, y),
{
    if far(x, y) <= 625 && 0 <= y < 32 && y <= 2 {
        let v = 2 * y - 31;
        let u = 2 * x - 31;
        assert(v * v >= 729) by (nonlinear_arith)
            requires
                v <= -27,
        ;
        assert(u * u >= 0) by (nonlinear_arith);
    }
}

/// A pixel of a frame of `w` by `h` pixels, drawn on the icon: the nearest one to its upper left.
pub open spec fn frame_pixel(rgba: Seq<u8>, w: int, h: int, x: int, y: int) -> (u8, u8, u8, u8) {
    let o = (y * h / 32 * w + x * w / 32) * 4;
    (rgba[o + 3], rgba[o], rgba[o + 1], rgba[o + 2])
}

proof fn lemma_frame_index(w: int, h: int, x: int, y: int)
    requires
        0 <= x < 32,
        0 <= y < 32,
        0 < w <= 0xffff,
        0 < h <= 0xffff,
    ensures
        0 <= y * h / 32 < h,
        0 <= x * w / 32 < w,
        0 <= y * h / 32 * w,
        y * h / 32 * w + x * w / 32 < w * h,
        0 <= y * h <= 31 * 0xffff,
        0 <= x * w <= 31 * 0xffff,
{
    assert(0 <= y * h <= 31 * h) by (nonlinear_arith)
        requires
            0 <= y < 32,
            0 < h,
    ;
    assert(0 <= x * w <= 31 * w) by (nonlinear_arith)
        requires
            0 <= x < 32,
            0 < w,
    ;
    let (a, b) = (y * h / 32, x * w / 32);
    assert(0 <= a * w && a * w + b < w * h) by (nonlinear_arith)
        requires
            0 <= a < h,
            0 <= b < w,
    ;
}

/// A frame of an animation as an icon.
pub fn gif_pixmap(frame: &Frame, width: u16, height: u16) -> (r: Vec<u8>)
    requires
        width > 0,
        height > 0,
        frame.rgba@.len() == 4 * width * height,
    ensures
        r@ == picture(|x: int, y: int| frame_pixel(frame.rgba@, width as int, height as int, x, y)),
{
    let (w, h): (usize, usize) = (width as usize, height as usize);
    let mut px: Vec<u8> = Vec::new();
    let mut i: usize = 0;
    let ghost f = |x: int, y: int| frame_pixel(frame.rgba@, w as int, h as int, x, y);
    assert(px@ =~= picture(f).take(0));
    while i < 1024
        invariant
            i <= 1024,
            w == width,
            h == height,
            0 < w,
            0 < h,
            frame.rgba.len() == 4 * w * h,
            f == (|x: int, y: int| frame_pixel(frame.rgba@, w as int, h as int, x, y)),
            px@ == picture(f).take(4 * i),
        decreases 1024 - i,
    {
        let (x, y): (usize, usize) = (i % 32, i / 32);
        proof {
            lemma_frame_index(w as int, h as int, x as int, y as int);
            assert(4 * w * h == 4 * (w * h)) by (nonlinear_arith);
        }
        let row: usize = y * h / 32;
        assert(row * w + x * w / 32 < w * h && 4 * (w * h) == frame.rgba.len());
        let o: usize = (row * w + x * w / 32) * 4;
        let p: (u8, u8, u8, u8) = (frame.rgba[o + 3], frame.rgba[o], frame.rgba[o + 1], frame.rgba[o + 2]);
        assert(p == frame_pixel(frame.rgba@, w as int, h as int, x as int, y as int));
        proof {
            lemma_next_pixel(f, px@, i as int);
        }
        put(&mut px, p);
        i = i + 1;
    }
    assert(picture(f).take(4096) =~= picture(f));
    px
}

// ---- the clock ----

/// The directions of the sixty minutes, clockwise from the top, 4096 long.
pub const DIAL: [(i32, i32); 60] = [
    (0, -4096), (428, -4074), (851, -4008), (1265, -3898), (1665, -3745),
    (2047, -3551), (2407, -3319), (2740, -3050), (3043, -2748), (3313, -2416),
    (3547, -2057), (3742, -1676), (3897, -1276), (4009, -862), (4077, -439),
    (4100, -11), (4079, 417), (4013, 840), (3903, 1254), (3751, 1655),
    (3557, 2038), (3324, 2398), (3055, 2732), (2753, 3036), (2420, 3307),
    (2061, 3542), (1679, 3738), (1279, 3893), (865, 4005), (441, 4073),
    (13, 4097), (-416, 4076), (-840, 4010), (-1255, 3900), (-1656, 3747),
    (-2039, 3553), (-2400, 3320), (-2735, 3051), (-3040, 2748), (-3311, 2415),
    (-3546, 2056), (-3742, 1674), (-3897, 1273), (-4010, 858), (-4079, 434),
    (-4103, 5), (-4082, -424), (-4016, -849), (-3906, -1265), (-3753, -1667),
    (-3559, -2051), (-3326, -2412), (-3057, -2747), (-2754, -3052), (-2421, -3324),
    (-2061, -3560), (-1678, -3757), (-1277, -3913), (-862, -4026), (-437, -4095),
];

/// The nearest number with 24 significant bits, of either sign.
pub open spec fn nearest(n: int, den: nat) -> int {
    if n < 0 {
        -(single::rounded((-n) as nat, den) as int)
    } else {
        single::rounded(n as nat, den) as int
    }
}

/// One coordinate of a direction between two, `f` of the way from `a` to `b`.
pub open spec fn between(a: i32, b: i32, f: nat) -> int {
    nearest(nearest(a * ONE as int + nearest((b - a) * f, 1), 1), 4096)
}

/// The direction of a place on the dial, in minutes.
pub open spec fn direction(pos: nat) -> (int, int) {
    let one = ONE as nat;
    let a = DIAL@[(pos / one % 60) as int];
    let b = DIAL@[((pos / one % 60 + 1) % 60) as int];
    (between(a.0, b.0, pos % one), between(a.1, b.1, pos % one))
}

/// Where the short hand points: five minutes for each hour, and on with the minutes.
pub open spec fn hour_place(h: u32, m: u32) -> nat {
    let one = ONE as nat;
    single::rounded(
        (h % 12) as nat * 5 * one + single::rounded(single::rounded(m as nat, 1) * one, 12),
        1,
    )
}

/// Where the long hand points.
pub open spec fn minute_place(m: u32) -> nat {
    single::rounded(m as nat, 1) * (ONE as nat)
}

/// One coordinate of the point of a hand that is `k` half pixels from the middle.
pub open spec fn along(d: int, k: int) -> int {
    let one = ONE as int;
    single::rounded((31 * one / 2 + nearest(d * k, 2)) as nat, 1) as int / one
}

/// Whether a hand of `n` half pixels covers a pixel.
pub open spec fn on_hand(d: (int, int), n: int, x: int, y: int) -> bool {
    exists|k: int| 0 <= k <= n && #[trigger] along(d.0, k) == x && along(d.1, k) == y
}

/// A pixel of the clock: the two hands on the dial.
pub open spec fn clock_pixel(h: u32, m: u32, x: int, y: int) -> (u8, u8, u8, u8) {
    if on_hand(direction(hour_place(h, m)), 16, x, y) || on_hand(direction(minute_place(m)), 24, x, y) {
        (255, 255, 255, 255)
    } else {
        face_pixel(x, y)
    }
}

pub(crate) open spec fn step_x(i: int) -> int {
    DIAL@[(i + 1) % 60].0 - DIAL@[i].0
}

pub(crate) open spec fn step_y(i: int) -> int {
    DIAL@[(i + 1) % 60].1 - DIAL@[i].1
}

pub(crate) proof fn lemma_dial(i: int)
    requires
        0 <= i < 60,
    ensures
        -4103 <= DIAL@[i].0 <= 4103,
        -4103 <= DIAL@[i].1 <= 4103,
        -437 <= step_x(i) <= 437,
        -437 <= step_y(i) <= 437,
{
    assert(forall|k: int|
        0 <= k < 60 ==> -4103 <= (#[trigger] DIAL@[k]).0 <= 4103 && -4103 <= DIAL@[k].1 <= 4103);
    assert(forall|k: int| 0 <= k < 20 ==> -437 <= #[trigger] step_x(k) <= 437);
    assert(forall|k: int| 20 <= k < 40 ==> -437 <= #[trigger] step_x(k) <= 437);
    assert(forall|k: int| 40 <= k < 60 ==> -437 <= #[trigger] step_x(k) <= 437);
    assert(forall|k: int| 0 <= k < 20 ==> -437 <= #[trigger] step_y(k) <= 437);
    assert(forall|k: int| 20 <= k < 40 ==> -437 <= #[trigger] step_y(k) <= 437);
    assert(forall|k: int| 40 <= k < 60 ==> -437 <= #[trigger] step_y(k) <= 437);
}

/// The nearest number with 24 significant bits, of either sign.
fn round_signed(n: i128, den: u128) -> (r: i128)
    requires
        0 < den <= 4096,
        -0x1_0000_0000_0000_0000_0000_0000 < n < 0x1_0000_0000_0000_0000_0000_0000,
    ensures
        r == nearest(n as int, den as nat),
{
    if n < 0 {
        -(round((-n) as u128, den) as i128)
    } else {
        round(n as u128, den) as i128
    }
}

/// A bound on a rounded number.
proof fn lemma_nearest(n: int, den: nat, bound: int)
    requires
        den > 0,
        -(bound * den) <= n <= bound * den,
        0 <= bound,
    ensures
        -(bound + bound / 0x80_0000 + 1) <= nearest(n, den) <= bound + bound / 0x80_0000 + 1,
{
    let m = (if n < 0 {
        -n
    } else {
        n
    }) as nat;
    single::lemma_rounded_quotient(m, den);
    assert(m / den <= bound) by (nonlinear_arith)
        requires
            m <= bound * den,
            den > 0,
    ;
    assert(m as int / den as int / 0x80_0000 <= bound / 0x80_0000);
}

/// One coordinate of a direction between two.
fn mid(a: i32, b: i32, f: u128) -> (r: i128)
    requires
        -4103 <= a <= 4103,
        -437 <= b - a <= 437,
        f < ONE,
    ensures
        r == between(a, b, f as nat),
        -5 * ONE <= 4 * r <= 5 * ONE,
{
    let d: i128 = b as i128 - a as i128;
    let one: i128 = ONE as i128;
    let g: i128 = f as i128;
    assert(-437 * one <= d * g <= 437 * one) by (nonlinear_arith)
        requires
            -437 <= d <= 437,
            0 <= g < one,
    ;
    proof {
        lemma_nearest(d * g, 1, 437 * one);
    }
    let step: i128 = round_signed(d * g, 1);
    let sum: i128 = a as i128 * one + step;
    proof {
        lemma_nearest(sum as int, 1, 4550 * one);
    }
    let v: i128 = round_signed(sum, 1);
    proof {
        lemma_nearest(v as int, 4096, (4560 * one) / 4096 + 1);
    }
    round_signed(v, 4096)
}

/// The direction of a place on the dial, in minutes.
pub fn dial_dir(pos: u128) -> (r: (i128, i128))
    ensures
        r.0 == direction(pos as nat).0,
        r.1 == direction(pos as nat).1,
        -5 * ONE <= 4 * r.0 <= 5 * ONE,
        -5 * ONE <= 4 * r.1 <= 5 * ONE,
{
    let lo: usize = (pos / ONE % 60) as usize;
    let hi: usize = (lo + 1) % 60;
    proof {
        lemma_dial(lo as int);
    }
    let (a, b): ((i32, i32), (i32, i32)) = (DIAL[lo], DIAL[hi]);
    assert(b.0 - a.0 == step_x(lo as int) && b.1 - a.1 == step_y(lo as int));
    (mid(a.0, b.0, pos % ONE), mid(a.1, b.1, pos % ONE))
}

/// One coordinate of a point of a hand.
fn point(d: i128, k: u32) -> (r: i32)
    requires
        -5 * ONE <= 4 * d <= 5 * ONE,
        k <= 24,
    ensures
        r == along(d as int, k as int),
        0 <= r < 32,
{
    let one: i128 = ONE as i128;
    let n: i128 = k as i128;
    assert(-120 * one <= 4 * (d * n) <= 120 * one) by (nonlinear_arith)
        requires
            -5 * one <= 4 * d <= 5 * one,
            0 <= n <= 24,
    ;
    proof {
        lemma_nearest(d * n, 2, 15 * one);
    }
    let at: i128 = 31 * one / 2 + round_signed(d * n, 2);
    proof {
        single::law_rounding_is_small(at as nat);
    }
    (round(at as u128, 1) / ONE) as i32
}

/// The points of a hand.
fn hand(d: (i128, i128), n: u32) -> (r: Vec<(i32, i32)>)
    requires
        -5 * ONE <= 4 * d.0 <= 5 * ONE,
        -5 * ONE <= 4 * d.1 <= 5 * ONE,
        n <= 24,
    ensures
        r@.len() == n + 1,
        forall|k: int|
            0 <= k <= n ==> (#[trigger] r@[k]).0 == along(d.0 as int, k) && r@[k].1 == along(
                d.1 as int,
                k,
            ),
{
    let mut out: Vec<(i32, i32)> = Vec::new();
    let mut k: u32 = 0;
    while k <= n
        invariant
            k <= n + 1,
            n <= 24,
            -5 * ONE <= 4 * d.0 <= 5 * ONE,
            -5 * ONE <= 4 * d.1 <= 5 * ONE,
            out@.len() == k,
            forall|j: int|
                0 <= j < k ==> (#[trigger] out@[j]).0 == along(d.0 as int, j) && out@[j].1 == along(
                    d.1 as int,
                    j,
                ),
        decreases n + 1 - k,
    {
        out.push((point(d.0, k), point(d.1, k)));
        k = k + 1;
    }
    out
}

/// Whether one of the points is this pixel.
fn covered(points: &Vec<(i32, i32)>, x: i32, y: i32) -> (r: bool)
    ensures
        r == exists|k: int| 0 <= k < points@.len() && (#[trigger] points@[k]).0 == x && points@[k].1 == y,
{
    let mut i: usize = 0;
    while i < points.len()
        invariant
            i <= points@.len(),
            forall|k: int| 0 <= k < i ==> !((#[trigger] points@[k]).0 == x && points@[k].1 == y),
        decreases points@.len() - i,
    {
        if points[i].0 == x && points[i].1 == y {
            return true;
        }
        i = i + 1;
    }
    false
}

/// The clock at a time in hours, minutes and seconds.
pub fn clock_pixmap(now: (u32, u32, u32)) -> (r: (i32, i32, Vec<u8>))
    ensures
        r.0 == 32,
        r.1 == 32,
        r.2@ == picture(|x: int, y: int| clock_pixel(now.0, now.1, x, y)),
{
    let (h, m, _): (u32, u32, u32) = now;
    let minutes: u128 = round(m as u128, 1);
    proof {
        single::law_rounding_is_small(m as nat);
    }
    let part: u128 = round(minutes * ONE, 12);
    let short = dial_dir(round((h % 12) as u128 * 5 * ONE + part, 1));
    let long = dial_dir(minutes * ONE);
    let (a, b) = (hand(short, 16), hand(long, 24));
    let ghost da = direction(hour_place(h, m));
    let ghost db = direction(minute_place(m));
    let mut px: Vec<u8> = Vec::new();
    let mut i: i32 = 0;
    let ghost f = |x: int, y: int| clock_pixel(h, m, x, y);
    assert(px@ =~= picture(f).take(0));
    while i < 1024
        invariant
            0 <= i <= 1024,
            da == direction(hour_place(h, m)),
            db == direction(minute_place(m)),
            a@.len() == 17,
            b@.len() == 25,
            forall|k: int|
                0 <= k <= 16 ==> (#[trigger] a@[k]).0 == along(da.0, k) && a@[k].1 == along(da.1, k),
            forall|k: int|
                0 <= k <= 24 ==> (#[trigger] b@[k]).0 == along(db.0, k) && b@[k].1 == along(db.1, k),
            f == (|x: int, y: int| clock_pixel(h, m, x, y)),
            px@ == picture(f).take(4 * i),
        decreases 1024 - i,
    {
        let (x, y): (i32, i32) = (i % 32, i / 32);
        let on_a = covered(&a, x, y);
        let on_b = covered(&b, x, y);
        proof {
            lemma_on_hand(a@, da, 16, x as int, y as int);
            lemma_on_hand(b@, db, 24, x as int, y as int);
        }
        let d: i32 = distance(x, y);
        let p: (u8, u8, u8, u8) = if on_a || on_b {
            (255, 255, 255, 255)
        } else if d > 900 {
            (0, 0, 0, 0)
        } else if d > 625 {
            (255, 255, 255, 255)
        } else {
            (255, 15, 15, 20)
        };
        assert(p == clock_pixel(h, m, x as int, y as int));
        proof {
            lemma_next_pixel(f, px@, i as int);
        }
        put(&mut px, p);
        i = i + 1;
    }
    assert(picture(f).take(4096) =~= picture(f));
    (32, 32, px)
}

proof fn lemma_on_hand(points: Seq<(i32, i32)>, d: (int, int), n: int, x: int, y: int)
    requires
        0 <= n,
        points.len() == n + 1,
        forall|k: int|
            0 <= k <= n ==> (#[trigger] points[k]).0 == along(d.0, k) && points[k].1 == along(d.1, k),
    ensures
        on_hand(d, n, x, y) == exists|k: int|
            0 <= k < points.len() && (#[trigger] points[k]).0 == x && points[k].1 == y,
{
    if on_hand(d, n, x, y) {
        let k = choose|k: int| 0 <= k <= n && #[trigger] along(d.0, k) == x && along(d.1, k) == y;
        assert(points[k].0 == x && points[k].1 == y);
    }
    if exists|k: int| 0 <= k < points.len() && (#[trigger] points[k]).0 == x && points[k].1 == y {
        let k = choose|k: int|
            0 <= k < points.len() && (#[trigger] points[k]).0 == x && points[k].1 == y;
        assert(along(d.0, k) == x && along(d.1, k) == y);
    }
}

/// The picture of the icon; an animation that cannot be shown leaves the clock in its place.
pub open spec fn icon(
    mode: IconMode,
    src: Sources,
    now: (u32, u32, u32),
    frame: Option<(Seq<u8>, int, int)>,
) -> Seq<u8> {
    match mode {
        IconMode::Clock => picture(|x: int, y: int| clock_pixel(now.0, now.1, x, y)),
        IconMode::Cpu => picture(|x: int, y: int| gauge_pixel(Some(src.cpu), false, x, y)),
        IconMode::Memory => picture(|x: int, y: int| gauge_pixel(Some(src.mem), false, x, y)),
        IconMode::Battery => match src.battery {
            Some(b) => picture(|x: int, y: int| gauge_pixel(Some(b.percent), b.charging, x, y)),
            None => picture(|x: int, y: int| gauge_pixel(None, false, x, y)),
        },
        IconMode::Gif => match frame {
            Some((rgba, w, h)) => picture(|x: int, y: int| frame_pixel(rgba, w, h, x, y)),
            None => picture(|x: int, y: int| clock_pixel(now.0, now.1, x, y)),
        },
    }
}

/// The picture of the icon.
pub fn icon_pixmap(
    mode: IconMode,
    src: &Sources,
    now: (u32, u32, u32),
    frame: Option<(&Frame, u16, u16)>,
) -> (r: (i32, i32, Vec<u8>))
    requires
        frame matches Some((f, w, h)) ==> w > 0 && h > 0 && f.rgba@.len() == 4 * w * h,
    ensures
        r.0 == 32,
        r.1 == 32,
        r.2@ == icon(
            mode,
            *src,
            now,
            match frame {
                Some((f, w, h)) => Some((f.rgba@, w as int, h as int)),
                None => None,
            },
        ),
{
    match mode {
        IconMode::Clock => clock_pixmap(now),
        IconMode::Cpu => gauge_pixmap(Some(src.cpu), false),
        IconMode::Memory => gauge_pixmap(Some(src.mem), false),
        IconMode::Battery => match src.battery {
            Some(b) => gauge_pixmap(Some(b.percent), b.charging),
            None => gauge_pixmap(None, false),
        },
        IconMode::Gif => match frame {
            Some((f, w, h)) => (32, 32, gif_pixmap(f, w, h)),
            None => clock_pixmap(now),
        },
    }
}

// ---- the icon that shows ----

/// Milliseconds between two looks at what the icon shows.
pub const ICON_EVERY_MS: u64 = 1000;

/// The icon that shows, and the moment of the last look at what it shows.
pub struct Shown {
    pub pixmap: Vec<u8>,
    pub at: u64,
}

impl Shown {
    /// Whether it is time for another look; it counts as done then.
    pub fn look_due(&mut self, now: u64) -> (r: bool)
        ensures
            r == (now >= old(self).at && now - old(self).at >= ICON_EVERY_MS),
            final(self).pixmap == old(self).pixmap,
            final(self).at == (if r {
                now
            } else {
                old(self).at
            }),
    {
        if now >= self.at && now - self.at >= ICON_EVERY_MS {
            self.at = now;
            true
        } else {
            false
        }
    }

    /// Takes in an icon, and says whether it is another than the one that shows: only then is it
    /// announced.
    pub fn replace(&mut self, pixmap: Vec<u8>) -> (r: bool)
        ensures
            r == (old(self).pixmap@ != pixmap@),
            final(self).pixmap@ == pixmap@,
            final(self).at == old(self).at,
    {
        let same = self.pixmap.len() == pixmap.len() && {
            let mut i: usize = 0;
            while i < pixmap.len() && self.pixmap[i] == pixmap[i]
                invariant
                    i <= pixmap@.len(),
                    pixmap@.len() == self.pixmap@.len(),
                    *self == *old(self),
                    forall|k: int| 0 <= k < i ==> self.pixmap@[k] == pixmap@[k],
                decreases pixmap@.len() - i,
            {
                i = i + 1;
            }
            i == pixmap.len()
        };
        if same {
            assert(self.pixmap@ =~= pixmap@);
            return false;
        }
        self.pixmap = pixmap;
        true
    }
}

/// The bytes of the icon: its rows from the top down, in each the pixels from the left to the right,
/// and of each its alpha, red, green and blue.
pub proof fn law_icon_bytes(f: spec_fn(int, int) -> (u8, u8, u8, u8), x: int, y: int)
    requires
        0 <= x < 32,
        0 <= y < 32,
    ensures
        picture(f).len() == 4096,
        picture(f)[128 * y + 4 * x] == f(x, y).0,
        picture(f)[128 * y + 4 * x + 1] == f(x, y).1,
        picture(f)[128 * y + 4 * x + 2] == f(x, y).2,
        picture(f)[128 * y + 4 * x + 3] == f(x, y).3,
{
}

/// A gauge is filled from its lowest row up, a row more for each four percent: in green, from 60 on in
/// yellow, and from 85 on in red; a battery that is being charged is green. Around it is the dial.
pub proof fn law_gauge_rows(p: u8, charging: bool, x: int, y: int)
    requires
        p <= 100,
    ensures
        far(x, y) > 625 ==> gauge_pixel(Some(p), charging, x, y) == face_pixel(x, y),
        p < 4 * (28 - y) ==> gauge_pixel(Some(p), charging, x, y) == face_pixel(x, y),
        far(x, y) <= 625 && p >= 4 * (28 - y) ==> gauge_pixel(Some(p), charging, x, y) == (
        if charging || p < 60 {
            (255u8, 80u8, 220u8, 120u8)
        } else if p < 85 {
            (255u8, 255u8, 200u8, 80u8)
        } else {
            (255u8, 240u8, 90u8, 90u8)
        }),
{
}

/// A frame is stretched over the icon: the pixel of the icon at a part of its width and height is the
/// one of the frame at the same part, with its alpha in front.
pub proof fn law_frame_fills_the_icon(rgba: Seq<u8>, w: int, h: int, x: int, y: int, u: int, v: int)
    requires
        0 < w,
        0 < h,
        rgba.len() >= w * h * 4,
        0 <= x < 32,
        0 <= y < 32,
        32 * u <= x * w < 32 * (u + 1),
        32 * v <= y * h < 32 * (v + 1),
    ensures
        0 <= u < w,
        0 <= v < h,
        frame_pixel(rgba, w, h, x, y) == (
            rgba[4 * (v * w + u) + 3],
            rgba[4 * (v * w + u)],
            rgba[4 * (v * w + u) + 1],
            rgba[4 * (v * w + u) + 2],
        ),
{
    assert(0 <= x * w < 32 * w && 0 <= y * h < 32 * h) by (nonlinear_arith)
        requires
            0 <= x < 32,
            0 <= y < 32,
            0 < w,
            0 < h,
    ;
    assert(x * w / 32 == u && y * h / 32 == v);
}

/// The dial is round: a pixel looks as the one across each of its middle lines, and a disk of twelve
/// and a half pixels lies in a ring that reaches to fifteen.
pub proof fn law_dial_is_round(x: int, y: int)
    ensures
        face_pixel(31 - x, y) == face_pixel(x, y),
        face_pixel(x, 31 - y) == face_pixel(x, y),
        face_pixel(y, x) == face_pixel(x, y),
        face_pixel(x, y) == (255u8, 15u8, 15u8, 20u8) <==> far(x, y) <= 25 * 25,
        face_pixel(x, y) == (0u8, 0u8, 0u8, 0u8) <==> far(x, y) > 30 * 30,
        face_pixel(x, y) == (255u8, 255u8, 255u8, 255u8) <==> 25 * 25 < far(x, y) <= 30 * 30,
{
    let (a, b) = (2 * x - 31, 2 * y - 31);
    assert((2 * (31 - x) - 31) == -a && (2 * (31 - y) - 31) == -b);
    assert((-a) * (-a) == a * a && (-b) * (-b) == b * b) by (nonlinear_arith);
}

/// What the icon shows in each mode: the clock the time, a gauge its own measure, and an animation its
/// frame, or the clock where there is none.
pub proof fn law_icon_shows_its_source(
    mode: IconMode,
    src: Sources,
    now: (u32, u32, u32),
    frame: Option<(Seq<u8>, int, int)>,
    x: int,
    y: int,
)
    requires
        0 <= x < 32,
        0 <= y < 32,
    ensures
        ({
            let b = icon(mode, src, now, frame);
            let at = 128 * y + 4 * x;
            let pixel = (b[at], b[at + 1], b[at + 2], b[at + 3]);
            &&& b.len() == 4096
            &&& mode == IconMode::Clock ==> pixel == clock_pixel(now.0, now.1, x, y)
            &&& mode == IconMode::Cpu ==> pixel == gauge_pixel(Some(src.cpu), false, x, y)
            &&& mode == IconMode::Memory ==> pixel == gauge_pixel(Some(src.mem), false, x, y)
            &&& mode == IconMode::Battery && src.battery is None ==> pixel == face_pixel(x, y)
            &&& mode == IconMode::Battery ==> (src.battery matches Some(v) ==> pixel == gauge_pixel(
                Some(v.percent),
                v.charging,
                x,
                y,
            ))
            &&& mode == IconMode::Gif && frame is None ==> pixel == clock_pixel(now.0, now.1, x, y)
            &&& mode == IconMode::Gif ==> (frame matches Some((rgba, w, h)) ==> pixel == frame_pixel(
                rgba,
                w,
                h,
                x,
                y,
            ))
        }),
{
    law_icon_bytes(|x: int, y: int| clock_pixel(now.0, now.1, x, y), x, y);
    law_icon_bytes(|x: int, y: int| gauge_pixel(Some(src.cpu), false, x, y), x, y);
    law_icon_bytes(|x: int, y: int| gauge_pixel(Some(src.mem), false, x, y), x, y);
    law_icon_bytes(|x: int, y: int| gauge_pixel(None, false, x, y), x, y);
    match src.battery {
        Some(v) => {
            law_icon_bytes(|x: int, y: int| gauge_pixel(Some(v.percent), v.charging, x, y), x, y);
        },
        None => {},
    }
    match frame {
        Some((rgba, w, h)) => {
            law_icon_bytes(|x: int, y: int| frame_pixel(rgba, w, h, x, y), x, y);
        },
        None => {},
    }
}

} // verus!
