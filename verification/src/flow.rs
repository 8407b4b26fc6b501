//! Where along the text its colors are, and that they flow without a seam: from one millisecond to the
//! next no component moves far, and neither does it where the period begins again.
use crate::effect;
use crate::effect::{GRADIENT_PERIOD_MS, MAX_STOPS};
use crate::render;
use crate::single;
use crate::single::ONE;
use vstd::arithmetic::power2;
use vstd::prelude::*;

verus! {

/// The distance of two numbers.
pub open spec fn apart(a: int, b: int) -> int {
    if a < b {
        b - a
    } else {
        a - b
    }
}

/// The most that rounding takes a number of the wave off.
spec fn slip() -> int {
    ONE as int / 0x1_0000
}

proof fn lemma_rounded(n: nat)
    requires
        n <= 128 * ONE,
    ensures
        apart(single::rounded(n, 1) as int, n as int) <= slip(),
{
    single::law_rounding_is_small(n);
}

/// How far the wave has run in the period.
proof fn lemma_phase(ph: nat)
    requires
        ph < 2000,
    ensures
        apart(1000 * single::rounded(2 * ph * ONE as nat, 2000) as int, ph * ONE) <= 1000 * slip(),
{
    let n = 2 * ph * ONE as nat;
    single::lemma_rounded_quotient(n, 2000);
    assert(n == 2 * (ph * ONE)) by (nonlinear_arith)
        requires
            n == 2 * ph * ONE,
    ;
    assert(ph * ONE <= 2000 * ONE) by (nonlinear_arith)
        requires
            ph < 2000,
    ;
}

/// The wave moves no further than what runs along it.
proof fn lemma_pingpong(a: nat, b: nat)
    requires
        a <= b,
        b - a < ONE,
    ensures
        apart(effect::pingpong(a) as int, effect::pingpong(b) as int) <= b - a,
{
    let m = 2 * ONE as nat;
    let (r, s) = (a % m, b % m);
    lemma_remainder(a, m);
    lemma_remainder(b, m);
    if a / m == b / m {
        assert(s - r == b - a);
    } else {
        assert(b / m == a / m + 1) by (nonlinear_arith)
            requires
                a == m * (a / m) + r,
                b == m * (b / m) + s,
                0 <= r < m,
                0 <= s < m,
                a <= b,
                b - a < m,
                a / m != b / m,
        ;
        assert(m * (a / m + 1) == m * (a / m) + m) by (nonlinear_arith);
        assert(s + m - r == b - a);
    }
}

proof fn lemma_remainder(a: nat, m: nat)
    requires
        m > 0,
    ensures
        a == m * (a / m) + a % m,
        a % m < m,
{
    assert(a == m * (a / m) + a % m && a % m < m) by (nonlinear_arith)
        requires
            m > 0,
    ;
}

/// The wave is the same again after its length.
proof fn lemma_pingpong_again(a: nat)
    ensures
        effect::pingpong(a + 2 * ONE as nat) == effect::pingpong(a),
{
    let m = 2 * ONE as nat;
    assert((a + m) % m == a % m) by (nonlinear_arith)
        requires
            m > 0,
    ;
}

/// From one millisecond to the next a column moves along the colors by about a thousandth.
proof fn lemma_along(x: int, width: u32, phase: u32)
    requires
        phase < u32::MAX,
    ensures
        1000 * apart(
            effect::along(x, width, true, phase) as int,
            effect::along(x, width, true, (phase + 1) as u32) as int,
        ) <= ONE + 8000 * slip(),
{
    let one = ONE as nat;
    let u = effect::along(x, width, false, 0);
    lemma_along_bound(x, width);
    let (ph, qh) = ((phase % 2000) as nat, ((phase + 1) % 2000) as nat);
    let (p, q) = (
        single::rounded(2 * ph * one, 2000),
        single::rounded(2 * qh * one, 2000),
    );
    lemma_phase(ph);
    lemma_phase(qh);
    assert(ph * ONE <= 2000 * ONE && qh * ONE <= 2000 * ONE) by (nonlinear_arith)
        requires
            ph <= 2000,
            qh <= 2000,
    ;
    let (v, w) = (single::rounded(u + p, 1), single::rounded(u + q, 1));
    lemma_rounded(u + p);
    lemma_rounded(u + q);
    assert(effect::along(x, width, true, phase) == effect::pingpong(v));
    assert(effect::along(x, width, true, (phase + 1) as u32) == effect::pingpong(w));
    if qh == ph + 1 {
        assert(qh * ONE == ph * ONE + ONE) by (nonlinear_arith)
            requires
                qh == ph + 1,
        ;
        lemma_close(v, w);
    } else {
        assert(ph == 1999 && qh == 0);
        lemma_pingpong_again(w);
        lemma_close(v, w + 2 * one);
    }
}

/// Two numbers that are a thousandth apart are no further apart on the wave.
proof fn lemma_close(v: nat, w: nat)
    requires
        apart(1000 * (w - v), ONE as int) <= 7000 * slip(),
    ensures
        1000 * apart(effect::pingpong(v) as int, effect::pingpong(w) as int) <= ONE + 8000 * slip(),
{
    lemma_pingpong(v, w);
}

/// Where a column is before anything flows.
proof fn lemma_along_bound(x: int, width: u32)
    ensures
        effect::along(x, width, false, 0) <= 10 * ONE,
{
    let top = if width == 0 {
        0int
    } else {
        width - 1
    };
    let w = if width == 0 {
        1int
    } else {
        width as int
    };
    let c = render::limited(x, 0, top);
    let column = single::rounded(c as nat, 1);
    let over = single::rounded(w as nat, 1);
    single::law_rounding_is_small(w as nat);
    single::law_rounding_is_small(c as nat);
    let n = column * ONE as nat;
    single::lemma_rounded_quotient(n, over);
    assert(n / over <= 2 * ONE) by (nonlinear_arith)
        requires
            n == column * ONE,
            column <= 2 * over,
            over > 0,
    ;
}

/// A component of the colors exactly `f` of the way along them, in units of `2^-64`.
spec fn exact(stops: Seq<u32>, shift: u32, f: int) -> int {
    let i = segment(stops, f);
    let x = render::channel(stops[i], shift);
    let y = render::channel(stops[i + 1], shift);
    x * ONE + (y - x) * (f - i * ONE)
}

/// Between which two colors `f` is.
spec fn segment(stops: Seq<u32>, f: int) -> int {
    if f / ONE as int > stops.len() - 2 {
        stops.len() - 2
    } else {
        f / ONE as int
    }
}

proof fn lemma_channel(c: u32, shift: u32)
    requires
        shift < 32,
    ensures
        0 <= render::channel(c, shift) <= 255,
{
    assert((c >> shift) & 0xff <= 255) by (bit_vector);
}

/// A component in single precision is the exact one, rounded.
proof fn lemma_mix_part(a: u32, b: u32, shift: u32, t: nat)
    requires
        shift < 32,
        t <= ONE,
    ensures
        ({
            let x = render::channel(a, shift);
            let y = render::channel(b, shift);
            2 * apart(effect::mix_part(a, b, shift, t) * ONE, x * ONE + (y - x) * t) <= ONE + 8 * slip()
        }),
        0 <= effect::mix_part(a, b, shift, t) <= 255,
{
    let one = ONE as nat;
    let x = render::channel(a, shift);
    let y = render::channel(b, shift);
    lemma_channel(a, shift);
    lemma_channel(b, shift);
    if y >= x {
        let d = ((y - x) * t) as nat;
        assert(0 <= (y - x) * t <= (y - x) * ONE) by (nonlinear_arith)
            requires
                0 <= y - x,
                0 <= t <= ONE,
        ;
        assert((y - x) * ONE + x * ONE == y * ONE) by (nonlinear_arith);
        lemma_rounded_wide(d);
        lemma_rounded_wide((x * one + single::rounded(d, 1)) as nat);
    } else {
        let d = ((x - y) * t) as nat;
        assert(0 <= (x - y) * t <= (x - y) * ONE) by (nonlinear_arith)
            requires
                0 <= x - y,
                0 <= t <= ONE,
        ;
        assert((x - y) * ONE + y * ONE == x * ONE) by (nonlinear_arith);
        assert((y - x) * t == -((x - y) * t)) by (nonlinear_arith);
        lemma_rounded_wide(d);
        let back = single::rounded(d, 1);
        if back <= x * one {
            lemma_rounded_wide((x * one - back) as nat);
        }
    }
}

proof fn lemma_rounded_wide(n: nat)
    requires
        n <= 256 * ONE,
    ensures
        apart(single::rounded(n, 1) as int, n as int) <= 2 * slip(),
{
    single::law_rounding_is_small(n);
}

/// The exact components move no faster than from none to all between two colors.
proof fn lemma_exact(stops: Seq<u32>, shift: u32, f: int, g: int)
    requires
        shift < 32,
        stops.len() >= 2,
        0 <= f <= g <= (stops.len() - 1) * ONE,
        g - f < ONE,
    ensures
        apart(exact(stops, shift, f), exact(stops, shift, g)) <= 255 * (g - f),
{
    let one = ONE as int;
    let (i, j) = (segment(stops, f), segment(stops, g));
    let a = render::channel(stops[i], shift);
    let b = render::channel(stops[i + 1], shift);
    lemma_channel(stops[i], shift);
    lemma_channel(stops[i + 1], shift);
    let s = f - i * one;
    assert(0 <= s <= one);
    if j == i {
        let t = g - i * one;
        assert((b - a) * t - (b - a) * s == (b - a) * (t - s)) by (nonlinear_arith);
        lemma_scaled(b - a, t - s);
    } else {
        assert(j == i + 1);
        let c = render::channel(stops[j + 1], shift);
        lemma_channel(stops[j + 1], shift);
        let t = g - j * one;
        assert(0 <= t <= one);
        assert(a * one + (b - a) * s == b * one - (b - a) * (one - s)) by (nonlinear_arith);
        lemma_scaled(b - a, one - s);
        lemma_scaled(c - b, t);
    }
}

proof fn lemma_scaled(d: int, t: int)
    requires
        -255 <= d <= 255,
        0 <= t,
    ensures
        -255 * t <= d * t <= 255 * t,
{
    assert(-255 * t <= d * t <= 255 * t) by (nonlinear_arith)
        requires
            -255 <= d <= 255,
            0 <= t,
    ;
}

/// How far along its colors a column is.
spec fn reach(stops: Seq<u32>, u: nat) -> int {
    let n = stops.len();
    let f = single::rounded((u * (n - 1)) as nat, 1);
    if f > (n - 1) * ONE {
        (n - 1) * ONE
    } else {
        f as int
    }
}

proof fn lemma_reach(stops: Seq<u32>, u: nat, v: nat)
    requires
        2 < stops.len() <= MAX_STOPS,
        u <= ONE,
        v <= ONE,
        1000 * apart(u as int, v as int) <= ONE + 8000 * slip(),
    ensures
        1000 * apart(reach(stops, u), reach(stops, v)) <= 19 * (ONE + 8000 * slip()) + 2000 * slip(),
        0 <= reach(stops, u) <= (stops.len() - 1) * ONE,
        0 <= reach(stops, v) <= (stops.len() - 1) * ONE,
{
    let k = (stops.len() - 1) as int;
    assert(0 <= u * k <= 19 * ONE && 0 <= v * k <= 19 * ONE) by (nonlinear_arith)
        requires
            0 <= u <= ONE,
            0 <= v <= ONE,
            0 <= k <= 19,
    ;
    lemma_rounded((u * k) as nat);
    lemma_rounded((v * k) as nat);
    let d = apart(u as int, v as int);
    assert(apart(u * k, v * k) <= 19 * d) by (nonlinear_arith)
        requires
            0 <= k <= 19,
            d == apart(u as int, v as int),
    {
        if u < v {
            assert(v * k - u * k == (v - u) * k);
            assert((v - u) * k <= (v - u) * 19);
        } else {
            assert(u * k - v * k == (u - v) * k);
            assert((u - v) * k <= (u - v) * 19);
        }
    }
}

/// A component of the color at a column.
proof fn lemma_component(stops: Seq<u32>, x: int, width: u32, phase: u32, shift: u32)
    requires
        2 < stops.len() <= MAX_STOPS,
        shift == 0 || shift == 8 || shift == 16,
    ensures
        ({
            let f = reach(stops, effect::along(x, width, true, phase));
            2 * apart(
                render::channel(effect::color_at(stops, x, width, phase) as u32, shift) * ONE,
                exact(stops, shift, f),
            ) <= ONE + 8 * slip()
        }),
{
    let one = ONE as int;
    let u = effect::along(x, width, true, phase);
    let f = reach(stops, u);
    let i = segment(stops, f);
    lemma_on_wave(x, width, phase);
    lemma_reach(stops, u, u);
    let t = (f - i * one) as nat;
    assert(0 <= f - i * one <= one);
    assert(effect::share(f - i * one) == t);
    let (a, b) = (stops[i], stops[i + 1]);
    lemma_mix_part(a, b, 16, t);
    lemma_mix_part(a, b, 8, t);
    lemma_mix_part(a, b, 0, t);
    let (r, g, c) = (
        effect::mix_part(a, b, 16, t) as u32,
        effect::mix_part(a, b, 8, t) as u32,
        effect::mix_part(a, b, 0, t) as u32,
    );
    let all = (r * 0x1_0000 + g * 0x100 + c) as u32;
    assert(effect::color_at(stops, x, width, phase) == effect::mixture(a, b, t));
    assert((all >> 16) & 0xff == r && (all >> 8) & 0xff == g && (all >> 0) & 0xff == c) by (bit_vector)
        requires
            r <= 255,
            g <= 255,
            c <= 255,
            all == (r * 0x1_0000 + g * 0x100 + c) as u32,
    ;
}

/// What runs on the wave is at most one.
proof fn lemma_on_wave(x: int, width: u32, phase: u32)
    ensures
        effect::along(x, width, true, phase) <= ONE,
{
}

/// Colors flow without a seam: from one millisecond to the next no component of a column moves by
/// more than six of its 255 steps, whatever the colors are, and neither does it where the period
/// begins again.
pub proof fn law_gradient_has_no_seam(stops: Seq<u32>, x: int, width: u32, phase_ms: u32, shift: u32)
    requires
        1 <= stops.len() <= MAX_STOPS,
        phase_ms < u32::MAX,
        shift == 0 || shift == 8 || shift == 16,
    ensures
        apart(
            render::channel(effect::color_at(stops, x, width, phase_ms) as u32, shift),
            render::channel(effect::color_at(stops, x, width, (phase_ms + 1) as u32) as u32, shift),
        ) <= 6,
{
    if stops.len() > 2 {
        let next = (phase_ms + 1) as u32;
        let (u, v) = (
            effect::along(x, width, true, phase_ms),
            effect::along(x, width, true, next),
        );
        lemma_along(x, width, phase_ms);
        lemma_on_wave(x, width, phase_ms);
        lemma_on_wave(x, width, next);
        lemma_reach(stops, u, v);
        lemma_component(stops, x, width, phase_ms, shift);
        lemma_component(stops, x, width, next, shift);
        let (f, g) = (reach(stops, u), reach(stops, v));
        if f <= g {
            lemma_exact(stops, shift, f, g);
        } else {
            lemma_exact(stops, shift, g, f);
        }
    }
}

// ---- where the colors are ----

/// How far from the left end of its colors a column is, in parts of `1000 * width`: as far as it is
/// along the canvas and as the time has gone of a second, there and back once in two seconds.
pub open spec fn swing(x: int, width: int, phase_ms: int) -> int {
    let all = 1000 * width;
    let at = (1000 * x + width * (phase_ms % 2000)) % (2 * all);
    if at < all {
        at
    } else {
        2 * all - at
    }
}

proof fn lemma_small(n: nat)
    requires
        n < 0x100_0000,
    ensures
        single::rounded(n, 1) == n,
{
    power2::lemma2_to64();
    single::law_few_bits_are_exact(n, 0, 1);
    assert(n * 1 * 1 == n);
}

/// Where a column is along the canvas.
proof fn lemma_column(x: int, width: u32)
    requires
        0 <= x < width < 0x100_0000,
    ensures
        apart(width * effect::along(x, width, false, 0), x * ONE) <= width * slip(),
        effect::along(x, width, false, 0) <= ONE + slip(),
{
    let w = width as int;
    let num = (x * ONE) as nat;
    lemma_small(x as nat);
    lemma_small(width as nat);
    single::lemma_rounded_quotient(num, width as nat);
    let u = effect::along(x, width, false, 0) as int;
    let q = num as int / w;
    vstd::arithmetic::div_mod::lemma_fundamental_div_mod(num as int, w);
    assert(q <= ONE) by (nonlinear_arith)
        requires
            q == num as int / w,
            num <= w * ONE,
            w > 0,
    ;
    let e = q / 0x80_0000;
    assert(q - e <= u <= q + e + 1);
    assert(e + 2 <= slip());
    assert(apart(w * u, w * q) <= w * (e + 1)) by (nonlinear_arith)
        requires
            q - e <= u <= q + e + 1,
            w > 0,
            e >= 0,
    ;
    assert(w * (e + 1) + w == w * (e + 2)) by (nonlinear_arith);
    assert(w * (e + 2) <= w * slip()) by (nonlinear_arith)
        requires
            e + 2 <= slip(),
            w > 0,
    ;
}

/// Where a column is on the wave.
proof fn lemma_swing(x: int, width: u32, phase: u32)
    requires
        0 <= x < width < 0x100_0000,
    ensures
        apart(
            1000 * width * effect::along(x, width, true, phase),
            swing(x, width as int, phase as int) * ONE,
        ) <= 1000 * width * (4 * slip()),
{
    let one = ONE as int;
    let w = width as int;
    let all = 1000 * w;
    let ph = (phase % 2000) as nat;
    let u = effect::along(x, width, false, 0);
    let p = single::rounded(2 * ph * ONE as nat, 2000);
    lemma_column(x, width);
    lemma_phase(ph);
    let v = single::rounded(u + p, 1);
    assert(effect::along(x, width, true, phase) == effect::pingpong(v));
    assert(u + p <= 4 * one);
    lemma_rounded(u + p);
    let at = 1000 * x + w * ph;
    // The wave's place, and the exact one.
    assert(apart(all * (u + p), at * one) <= all * (2 * slip())) by (nonlinear_arith)
        requires
            apart(w * u, x * one) <= w * slip(),
            apart(1000 * p as int, ph * one) <= 1000 * slip(),
            all == 1000 * w,
            at == 1000 * x + w * ph,
            w > 0,
    {
        let (a, b) = (w * u - x * one, 1000 * p - ph * one);
        assert(all * (u + p) - at * one == 1000 * a + w * b);
        assert(-(w * (1000 * slip())) <= w * b <= w * (1000 * slip()));
        assert(all * (2 * slip()) == 1000 * (w * slip()) + w * (1000 * slip()));
    }
    assert(apart(all * v as int, all * (u + p)) <= all * slip()) by (nonlinear_arith)
        requires
            apart(v as int, (u + p) as int) <= slip(),
            all > 0,
    {
        let d = v - (u + p);
        assert(all * v - all * (u + p) == all * d);
        assert(-(all * slip()) <= all * d <= all * slip());
    }
    assert(all * (2 * slip()) + all * slip() == all * (3 * slip())) by (nonlinear_arith);
    let z = at * one / all;
    vstd::arithmetic::div_mod::lemma_fundamental_div_mod(at * one, all);
    assert(0 <= at < 3 * all) by (nonlinear_arith)
        requires
            at == 1000 * x + w * ph,
            0 <= x < w,
            0 <= ph < 2000,
            all == 1000 * w,
    ;
    assert(0 <= at * one) by (nonlinear_arith)
        requires
            at >= 0,
            one > 0,
    ;
    lemma_turns(at, all, z);
    assert(apart(v as int, z) <= 3 * slip() + 1) by (nonlinear_arith)
        requires
            apart(all * v as int, at * one) <= all * (3 * slip()),
            all * z <= at * one < all * z + all,
            all > 0,
    {
        let d = v - z;
        assert(all * v - all * z == all * d);
        if d > 3 * slip() + 1 {
            assert(all * d >= all * (3 * slip() + 2));
            assert(all * (3 * slip() + 2) == all * (3 * slip()) + 2 * all);
        }
        if d < -(3 * slip() + 1) {
            assert(all * d <= all * (-(3 * slip()) - 2));
            assert(all * (-(3 * slip()) - 2) == -(all * (3 * slip())) - 2 * all);
        }
    }
    if v <= z {
        lemma_pingpong(v, z as nat);
    } else {
        lemma_pingpong(z as nat, v);
    }
    let (r, s) = (effect::pingpong(v) as int, effect::pingpong(z as nat) as int);
    let t = swing(x, w, phase as int);
    assert(at % (2 * all) == (1000 * x + w * (phase as int % 2000)) % (2 * all));
    assert(apart(all * r, t * one) <= all * (4 * slip())) by (nonlinear_arith)
        requires
            apart(r, s) <= 3 * slip() + 1,
            apart(all * s, t * one) <= all,
            slip() >= 2,
            all > 0,
    {
        let d = r - s;
        assert(all * r - all * s == all * d);
        assert(-(all * (3 * slip() + 1)) <= all * d <= all * (3 * slip() + 1));
        assert(all * (3 * slip() + 1) + all == all * (3 * slip() + 2));
        assert(all * (3 * slip() + 2) <= all * (4 * slip()));
    }
}

/// The place on the wave once there and back.
proof fn lemma_turns(at: int, all: int, z: int)
    requires
        0 < all,
        0 <= at < 3 * all,
        all * z <= at * ONE < all * z + all,
    ensures
        0 <= z,
        ({
            let r = at % (2 * all);
            let t = if r < all {
                r
            } else {
                2 * all - r
            };
            apart(all * effect::pingpong(z as nat), t * ONE) <= all
        }),
{
    let one = ONE as int;
    let turn = if at < all {
        0int
    } else if at < 2 * all {
        1
    } else {
        2
    };
    assert(turn * one <= z < (turn + 1) * one) by (nonlinear_arith)
        requires
            turn * all <= at < (turn + 1) * all,
            all * z <= at * one < all * z + all,
            all > 0,
            one > 0,
    {
        if z < turn * one {
            assert(z + 1 <= turn * one);
            assert(all * (z + 1) <= all * (turn * one));
            assert(all * (turn * one) == turn * all * one);
            assert(turn * all * one <= at * one);
        }
        if z >= (turn + 1) * one {
            assert(all * z >= all * ((turn + 1) * one));
            assert(all * ((turn + 1) * one) == (turn + 1) * all * one);
            assert(at * one < (turn + 1) * all * one);
        }
    }
    if turn == 2 {
        vstd::arithmetic::div_mod::lemma_fundamental_div_mod_converse(at, 2 * all, 1, at - 2 * all);
        vstd::arithmetic::div_mod::lemma_fundamental_div_mod_converse(z, 2 * one, 1, z - 2 * one);
        assert(all * (z - 2 * one) == all * z - 2 * all * one && (at - 2 * all) * one == at * one - 2
            * all * one) by (nonlinear_arith);
    } else {
        vstd::arithmetic::div_mod::lemma_small_mod(at as nat, (2 * all) as nat);
        vstd::arithmetic::div_mod::lemma_small_mod(z as nat, (2 * one) as nat);
        assert(all * (2 * one - z) == 2 * all * one - all * z && (2 * all - at) * one == 2 * all * one
            - at * one) by (nonlinear_arith);
    }
}

/// Three colors and more flow along the text. A column is between the two colors where the swing
/// takes it, `part` of `1000 * width` from the first of them to the second: each component is within
/// one of the exact mixture.
pub proof fn law_flowing_colors_are_mixed(
    stops: Seq<u32>,
    x: int,
    width: u32,
    phase_ms: u32,
    shift: u32,
    i: int,
    part: int,
)
    requires
        2 < stops.len() <= MAX_STOPS,
        0 <= x < width < 0x100_0000,
        shift == 0 || shift == 8 || shift == 16,
        0 <= i < stops.len() - 1,
        0 <= part,
        part < 1000 * width || (part == 1000 * width && i == stops.len() - 2),
        swing(x, width as int, phase_ms as int) * (stops.len() - 1) == 1000 * width * i + part,
    ensures
        ({
            let all = 1000 * width;
            let (a, b) = (render::channel(stops[i], shift), render::channel(stops[i + 1], shift));
            let c = render::channel(effect::color_at(stops, x, width, phase_ms) as u32, shift);
            apart(all * c, a * (all - part) + b * part) < all
        }),
{
    let one = ONE as int;
    let all = 1000 * width as int;
    let k = (stops.len() - 1) as int;
    let t = swing(x, width as int, phase_ms as int);
    let u = effect::along(x, width, true, phase_ms);
    lemma_swing(x, width, phase_ms);
    lemma_on_wave(x, width, phase_ms);
    lemma_reach(stops, u, u);
    lemma_component(stops, x, width, phase_ms, shift);
    let f = reach(stops, u);
    let whole = t * k;
    assert(0 <= u * k <= 19 * one && u * k <= k * one) by (nonlinear_arith)
        requires
            0 <= u <= one,
            0 <= k <= 19,
    ;
    lemma_rounded((u * k) as nat);
    assert(apart(f, u * k) <= slip());
    assert(apart(all * f, whole * one) <= all * (77 * slip())) by (nonlinear_arith)
        requires
            apart(f, u * k) <= slip(),
            apart(all * u, t * one) <= all * (4 * slip()),
            whole == t * k,
            2 <= k <= 19,
            all > 0,
    {
        let (d, e) = (f - u * k, all * u - t * one);
        assert(all * f - whole * one == all * d + k * e);
        assert(-(all * slip()) <= all * d <= all * slip());
        assert(-(19 * (all * (4 * slip()))) <= k * e <= 19 * (all * (4 * slip())));
        assert(all * (77 * slip()) == all * slip() + 19 * (all * (4 * slip())));
    }
    let g = whole * one / all;
    assert(0 <= whole * one) by (nonlinear_arith)
        requires
            whole == all * i + part,
            all > 0,
            i >= 0,
            part >= 0,
            one > 0,
    ;
    vstd::arithmetic::div_mod::lemma_fundamental_div_mod(whole * one, all);
    assert(apart(f, g) <= 77 * slip() + 1) by (nonlinear_arith)
        requires
            apart(all * f, whole * one) <= all * (77 * slip()),
            all * g <= whole * one < all * g + all,
            all > 0,
    {
        let d = f - g;
        assert(all * f - all * g == all * d);
        if d > 77 * slip() + 1 {
            assert(all * d >= all * (77 * slip() + 2));
            assert(all * (77 * slip() + 2) == all * (77 * slip()) + 2 * all);
        }
        if d < -(77 * slip() + 1) {
            assert(all * d <= all * (-(77 * slip()) - 2));
            assert(all * (-(77 * slip()) - 2) == -(all * (77 * slip())) - 2 * all);
        }
    }
    lemma_segment(whole, all, i, part, g, stops.len() as int);
    if f <= g {
        lemma_exact(stops, shift, f, g);
    } else {
        lemma_exact(stops, shift, g, f);
    }
    let (a, b) = (render::channel(stops[i], shift), render::channel(stops[i + 1], shift));
    lemma_channel(stops[i], shift);
    lemma_channel(stops[i + 1], shift);
    let c = render::channel(effect::color_at(stops, x, width, phase_ms) as u32, shift);
    let d = b - a;
    let s = g - i * one;
    assert(exact(stops, shift, g) == a * one + d * s);
    // From the exact component in units of `2^-64` to that in parts of the whole.
    assert(apart(all * (a * one + d * s), one * (a * (all - part) + b * part)) <= 255 * all)
        by (nonlinear_arith)
        requires
            all * s <= part * one < all * s + all,
            d == b - a,
            -255 <= d <= 255,
            all > 0,
    {
        let e = part * one - all * s;
        assert(one * (a * (all - part) + b * part) == all * (a * one) + d * (part * one));
        assert(all * (a * one + d * s) == all * (a * one) + d * (all * s));
        assert(d * (part * one) - d * (all * s) == d * e);
        assert(-255 * all <= d * e <= 255 * all);
    }
    let err = 255 * (77 * slip() + 1);
    let x0 = exact(stops, shift, f);
    let x1 = exact(stops, shift, g);
    assert(2 * apart(c * one, x1) <= one + 8 * slip() + 2 * err);
    lemma_last_step(all, c, x1, a * (all - part) + b * part, one + 8 * slip() + 2 * err);
}

proof fn lemma_last_step(all: int, c: int, x1: int, mix: int, err: int)
    requires
        all > 0,
        2 * apart(c * ONE, x1) <= err,
        apart(all * x1, ONE * mix) <= 255 * all,
        err + 510 < 2 * ONE,
    ensures
        apart(all * c, mix) < all,
{
    let one = ONE as int;
    assert(apart(all * c, mix) < all) by (nonlinear_arith)
        requires
            all > 0,
            one > 0,
            2 * apart(c * one, x1) <= err,
            apart(all * x1, one * mix) <= 255 * all,
            err + 510 < 2 * one,
    {
        let (d, e) = (c * one - x1, all * x1 - one * mix);
        let z = all * c - mix;
        assert(one * z == all * d + e);
        assert(2 * (all * d) <= all * err && 2 * (all * d) >= -(all * err));
        assert(2 * (one * z) <= all * err + 510 * all);
        assert(2 * (one * z) >= -(all * err) - 510 * all);
        assert(all * err + 510 * all == all * (err + 510));
        assert(all * (err + 510) < all * (2 * one));
        if z >= all {
            assert(one * z >= one * all);
        }
        if z <= -all {
            assert(one * z <= -(one * all));
        }
    }
}

/// Between which two colors the exact place is, and how far.
proof fn lemma_segment(whole: int, all: int, i: int, part: int, g: int, n: int)
    requires
        0 < all,
        2 < n,
        0 <= i < n - 1,
        whole == all * i + part,
        0 <= part,
        part < all || (part == all && i == n - 2),
        all * g <= whole * ONE < all * g + all,
    ensures
        0 <= g <= (n - 1) * ONE,
        i == (if g / ONE as int > n - 2 {
            n - 2
        } else {
            g / ONE as int
        }),
        all * (g - i * ONE) <= part * ONE < all * (g - i * ONE) + all,
{
    let one = ONE as int;
    let s = g - i * one;
    assert(all * s == all * g - all * i * one && whole * one == all * i * one + part * one)
        by (nonlinear_arith)
        requires
            s == g - i * one,
            whole == all * i + part,
    ;
    assert(0 <= s <= one && (part < all ==> s < one)) by (nonlinear_arith)
        requires
            all * s <= part * one < all * s + all,
            0 <= part <= all,
            all > 0,
            one > 0,
    {
        if s < 0 {
            assert(all * s <= -all);
        }
        if s > one {
            assert(all * s >= all * one + all);
            assert(part * one <= all * one);
        }
        if part < all && s >= one {
            assert(all * s >= all * one);
            assert(part * one <= (all - 1) * one);
            assert((all - 1) * one == all * one - one);
        }
    }
    if s < one {
        vstd::arithmetic::div_mod::lemma_fundamental_div_mod_converse(g, one, i, s);
    } else {
        vstd::arithmetic::div_mod::lemma_fundamental_div_mod_converse(g, one, i + 1, 0);
    }
    assert(0 <= i * one && (i + 1) * one <= (n - 1) * one) by (nonlinear_arith)
        requires
            0 <= i < n - 1,
            one > 0,
    ;
}

/// Two colors stand still: the first at the left end, and from there to the right in proportion the
/// second. Each component is within one of the exact mixture.
pub proof fn law_two_colors_are_mixed(stops: Seq<u32>, x: int, width: u32, phase_ms: u32, shift: u32)
    requires
        stops.len() == 2,
        0 <= x < width < 0x100_0000,
        shift == 0 || shift == 8 || shift == 16,
    ensures
        ({
            let (a, b) = (render::channel(stops[0], shift), render::channel(stops[1], shift));
            let c = render::channel(effect::color_at(stops, x, width, phase_ms) as u32, shift);
            apart(width * c, a * (width - x) + b * x) < width
        }),
{
    let one = ONE as int;
    let w = width as int;
    lemma_column(x, width);
    let u = effect::along(x, width, false, phase_ms);
    assert(u == effect::along(x, width, false, 0));
    assert(u * 1 == u);
    lemma_rounded(u);
    let f = single::rounded(u, 1) as int;
    let t = if f > one {
        one
    } else {
        f
    };
    assert(apart(w * t, x * one) <= w * (2 * slip())) by (nonlinear_arith)
        requires
            apart(w * u as int, x * one) <= w * slip(),
            apart(f, u as int) <= slip(),
            t == (if f > one {
                one
            } else {
                f
            }),
            0 <= x < w,
            one > 0,
    {
        let d = f - u;
        assert(w * f == w * u + w * d);
        assert(-(w * slip()) <= w * d <= w * slip());
        assert(w * (2 * slip()) == w * slip() + w * slip());
        if f > one {
            assert(w * one <= w * f);
            assert(x * one <= w * one);
        }
    }
    let (p, q) = (stops[0], stops[1]);
    lemma_mix_part(p, q, 16, t as nat);
    lemma_mix_part(p, q, 8, t as nat);
    lemma_mix_part(p, q, 0, t as nat);
    let (r, g, b) = (
        effect::mix_part(p, q, 16, t as nat) as u32,
        effect::mix_part(p, q, 8, t as nat) as u32,
        effect::mix_part(p, q, 0, t as nat) as u32,
    );
    let all = (r * 0x1_0000 + g * 0x100 + b) as u32;
    assert(effect::share(t) == t);
    assert(effect::color_at(stops, x, width, phase_ms) == effect::mixture(p, q, t as nat));
    assert((all >> 16) & 0xff == r && (all >> 8) & 0xff == g && (all >> 0) & 0xff == b) by (bit_vector)
        requires
            r <= 255,
            g <= 255,
            b <= 255,
            all == (r * 0x1_0000 + g * 0x100 + b) as u32,
    ;
    let c = render::channel(effect::color_at(stops, x, width, phase_ms) as u32, shift);
    let (a, e) = (render::channel(p, shift), render::channel(q, shift));
    lemma_channel(p, shift);
    lemma_channel(q, shift);
    let d = e - a;
    let x1 = a * one + d * t;
    let mix = a * (w - x) + e * x;
    assert(2 * apart(c * one, x1) <= one + 8 * slip());
    assert(apart(w * x1, one * mix) <= 255 * (w * (2 * slip()))) by (nonlinear_arith)
        requires
            apart(w * t, x * one) <= w * (2 * slip()),
            d == e - a,
            -255 <= d <= 255,
            x1 == a * one + d * t,
            mix == a * (w - x) + e * x,
            w > 0,
    {
        let z = w * t - x * one;
        assert(one * mix == w * (a * one) + d * (x * one));
        assert(w * x1 == w * (a * one) + d * (w * t));
        assert(d * (w * t) - d * (x * one) == d * z);
        let m = w * (2 * slip());
        assert(-255 * m <= d * z <= 255 * m);
    }
    assert(apart(w * c, mix) < w) by (nonlinear_arith)
        requires
            w > 0,
            one > 0,
            2 * apart(c * one, x1) <= one + 8 * slip(),
            apart(w * x1, one * mix) <= 255 * (w * (2 * slip())),
            8 * slip() + 1020 * slip() < one,
    {
        let (h, k) = (c * one - x1, w * x1 - one * mix);
        let z = w * c - mix;
        assert(one * z == w * h + k);
        assert(2 * (w * h) <= w * (one + 8 * slip()) && 2 * (w * h) >= -(w * (one + 8 * slip())));
        assert(255 * (w * (2 * slip())) == w * (510 * slip()));
        assert(w * (one + 8 * slip()) + 2 * (w * (510 * slip())) == w * (one + 8 * slip() + 1020 * slip()));
        assert(w * (one + 8 * slip() + 1020 * slip()) < w * (2 * one));
        if z >= w {
            assert(one * z >= one * w);
        }
        if z <= -w {
            assert(one * z <= -(one * w));
        }
    }
}

} // verus!
