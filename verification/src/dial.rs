//! Where the hands of the clock in the tray point, and which pixels they cover.
use crate::icon;
use crate::icon::DIAL;
use crate::single;
use crate::single::ONE;
use vstd::arithmetic::power2;
use vstd::prelude::*;

verus! {

/// The distance of two numbers.
pub open spec fn apart(a: int, b: int) -> int {
    if a < b {
        b - a
    } else {
        a - b
    }
}

/// The dial begins at the top and goes round clockwise in sixty steps. A quarter of them is a right
/// angle: a quarter on from up is right, then down, then left. Each step turns by a sixtieth of the
/// circle: it goes a tenth of the radius towards the direction that is a quarter on.
pub proof fn law_dial_goes_round(i: int)
    requires
        0 <= i < 60,
    ensures
        DIAL@[0] == (0i32, -4096i32),
        apart(1000 * DIAL@[(i + 1) % 60].0, 995 * DIAL@[i].0 + 105 * DIAL@[(i + 15) % 60].0) <= 25_000,
        apart(1000 * DIAL@[(i + 1) % 60].1, 995 * DIAL@[i].1 + 105 * DIAL@[(i + 15) % 60].1) <= 25_000,
        apart(DIAL@[(i + 15) % 60].0 as int, -DIAL@[i].1) <= 18,
        apart(DIAL@[(i + 15) % 60].1 as int, DIAL@[i].0 as int) <= 18,
{
    lemma_steps(i);
    lemma_quarters(i);
}

spec fn step_x(i: int) -> bool {
    apart(1000 * DIAL@[(i + 1) % 60].0, 995 * DIAL@[i].0 + 105 * DIAL@[(i + 15) % 60].0) <= 25_000
}

spec fn step_y(i: int) -> bool {
    apart(1000 * DIAL@[(i + 1) % 60].1, 995 * DIAL@[i].1 + 105 * DIAL@[(i + 15) % 60].1) <= 25_000
}

proof fn lemma_steps(i: int)
    requires
        0 <= i < 60,
    ensures
        step_x(i),
        step_y(i),
{
    assert(forall|k: int| 0 <= k < 15 ==> #[trigger] step_x(k));
    assert(forall|k: int| 15 <= k < 30 ==> #[trigger] step_x(k));
    assert(forall|k: int| 30 <= k < 45 ==> #[trigger] step_x(k));
    assert(forall|k: int| 45 <= k < 60 ==> #[trigger] step_x(k));
    assert(forall|k: int| 0 <= k < 15 ==> #[trigger] step_y(k));
    assert(forall|k: int| 15 <= k < 30 ==> #[trigger] step_y(k));
    assert(forall|k: int| 30 <= k < 45 ==> #[trigger] step_y(k));
    assert(forall|k: int| 45 <= k < 60 ==> #[trigger] step_y(k));
}

spec fn quarter_off(i: int) -> bool {
    apart(DIAL@[(i + 15) % 60].0 as int, -DIAL@[i].1) <= 18 && apart(
        DIAL@[(i + 15) % 60].1 as int,
        DIAL@[i].0 as int,
    ) <= 18
}

proof fn lemma_quarters(i: int)
    requires
        0 <= i < 60,
    ensures
        quarter_off(i),
{
    assert(forall|k: int| 0 <= k < 15 ==> #[trigger] quarter_off(k));
    assert(forall|k: int| 15 <= k < 30 ==> #[trigger] quarter_off(k));
    assert(forall|k: int| 30 <= k < 45 ==> #[trigger] quarter_off(k));
    assert(forall|k: int| 45 <= k < 60 ==> #[trigger] quarter_off(k));
}

/// How far the short hand has come since twelve, in the time that it takes for a minute of the dial:
/// a twelfth of the minutes since then.
pub proof fn law_short_hand_goes_a_twelfth(h: u32, m: u32)
    requires
        m < 60,
    ensures
        apart(12 * icon::hour_place(h, m) as int, (60 * (h % 12) + m) * ONE) <= ONE / 10_000,
        (60 * (h % 12) + m) % 12 == 0 ==> 12 * icon::hour_place(h, m) == (60 * (h % 12) + m) * ONE,
{
    let one = ONE as nat;
    let hour = (h % 12) as nat;
    single::law_small_is_exact(m as nat);
    let part = single::rounded(m as nat * one, 12);
    single::lemma_rounded_quotient(m as nat * one, 12);
    let sum = hour * 5 * one + part;
    single::law_rounding_is_small(sum);
    if m % 12 == 0 {
        power2::lemma2_to64();
        let q = (m / 12) as nat;
        assert(m as nat * one == q * power2::pow2(64) * 12) by (nonlinear_arith)
            requires
                m == 12 * q,
                one == power2::pow2(64),
        ;
        single::law_few_bits_are_exact(q, 64, 12);
        let all = hour * 5 + q;
        assert(sum == all * power2::pow2(64) * 1) by (nonlinear_arith)
            requires
                sum == hour * 5 * one + q * power2::pow2(64),
                all == hour * 5 + q,
                one == power2::pow2(64),
        ;
        single::law_few_bits_are_exact(all, 64, 1);
    }
}

/// The long hand points to the minute.
pub proof fn law_long_hand_points_to_the_minute(m: u32)
    requires
        m < 60,
    ensures
        icon::minute_place(m) == m * ONE,
{
    single::law_small_is_exact(m as nat);
}

proof fn lemma_nearest_whole(k: int)
    requires
        -0x100_0000 < k < 0x100_0000,
    ensures
        icon::nearest(k * ONE, 1) == k * ONE,
        icon::nearest(k * ONE, 4096) * 4096 == k * ONE,
{
    power2::lemma2_to64();
    power2::lemma2_to64_rest();
    let n = (if k < 0 {
        -k
    } else {
        k
    }) as nat;
    assert(n * power2::pow2(64) * 1 == n * ONE && n * power2::pow2(52) * 4096 == n * ONE) by (nonlinear_arith)
        requires
            power2::pow2(64) == ONE,
            power2::pow2(52) * 4096 == ONE,
    ;
    single::law_few_bits_are_exact(n, 64, 1);
    single::law_few_bits_are_exact(n, 52, 4096);
    assert(k < 0 ==> -(k * ONE) == n * ONE) by (nonlinear_arith)
        requires
            k < 0 ==> n == -k,
    ;
}

/// Rounding takes a number off by little.
proof fn lemma_nearest_is_near(n: int, den: nat)
    requires
        den > 0,
    ensures
        apart(den * icon::nearest(n, den), n) <= apart(n, 0) / 0x80_0000 + 2 * den,
{
    let m = (if n < 0 {
        -n
    } else {
        n
    }) as nat;
    let q = m / den;
    single::lemma_rounded_quotient(m, den);
    let r = single::rounded(m, den) as int;
    let e = q / 0x80_0000;
    vstd::arithmetic::div_mod::lemma_fundamental_div_mod(m as int, den as int);
    assert(den * r <= den * q + den * e + den) by (nonlinear_arith)
        requires
            r <= q + e + 1,
            den > 0,
    ;
    assert(den * r >= den * q - den * e) by (nonlinear_arith)
        requires
            r >= q - e,
            den > 0,
    ;
    assert(den * e <= m / 0x80_0000) by (nonlinear_arith)
        requires
            den * q <= m,
            e == q / 0x80_0000,
            den > 0,
    ;
    assert(n < 0 ==> den * (-r) == -(den * r)) by (nonlinear_arith);
}

/// A direction between two is between them in proportion.
proof fn lemma_between(a: i32, b: i32, f: nat)
    requires
        -4103 <= a <= 4103,
        -437 <= b - a <= 437,
        f < ONE,
    ensures
        apart(4096 * icon::between(a, b, f), a * ONE + (b - a) * f) <= ONE / 256,
        -5 * ONE <= 4 * icon::between(a, b, f) <= 5 * ONE,
{
    let one = ONE as int;
    let g = f as int;
    let d = b - a;
    assert(-437 * one <= d * g <= 437 * one) by (nonlinear_arith)
        requires
            -437 <= d <= 437,
            0 <= g < one,
    ;
    let step = icon::nearest(d * g, 1);
    lemma_nearest_is_near(d * g, 1);
    let sum = a * one + step;
    lemma_nearest_is_near(sum, 1);
    let v = icon::nearest(sum, 1);
    lemma_nearest_is_near(v, 4096);
}

/// The direction of a place on the dial: at a minute its own, and between two minutes between theirs,
/// in proportion.
pub proof fn law_direction_is_on_the_dial(i: nat, f: nat)
    requires
        i < 60,
        f < ONE,
    ensures
        ({
            let d = icon::direction(i * ONE as nat + f);
            let (a, b) = (DIAL@[i as int], DIAL@[(i + 1) as int % 60]);
            &&& f == 0 ==> 4096 * d.0 == a.0 * ONE && 4096 * d.1 == a.1 * ONE
            &&& apart(4096 * d.0, a.0 * ONE + (b.0 - a.0) * f) <= ONE / 256
            &&& apart(4096 * d.1, a.1 * ONE + (b.1 - a.1) * f) <= ONE / 256
            &&& -5 * ONE <= 4 * d.0 <= 5 * ONE
            &&& -5 * ONE <= 4 * d.1 <= 5 * ONE
        }),
{
    let pos = i * ONE as nat + f;
    vstd::arithmetic::div_mod::lemma_fundamental_div_mod_converse(
        pos as int,
        ONE as int,
        i as int,
        f as int,
    );
    let (a, b) = (DIAL@[i as int], DIAL@[(i + 1) as int % 60]);
    icon::lemma_dial(i as int);
    lemma_between(a.0, b.0, f);
    lemma_between(a.1, b.1, f);
    if f == 0 {
        assert((b.0 - a.0) * f == 0 && (b.1 - a.1) * f == 0) by (nonlinear_arith)
            requires
                f == 0,
        ;
        lemma_nearest_whole(0);
        lemma_nearest_whole(a.0 as int);
        lemma_nearest_whole(a.1 as int);
        assert(0 * ONE == 0);
    }
}

/// The direction of the short hand, twelve times 4096 long: after that many minutes since twelve it
/// stands at every twelfth on a minute of the dial, and else in proportion between two.
pub open spec fn short_way(minutes: int) -> (int, int) {
    let a = DIAL@[minutes / 12 % 60];
    let b = DIAL@[(minutes / 12 + 1) % 60];
    let r = minutes % 12;
    (a.0 * (12 - r) + b.0 * r, a.1 * (12 - r) + b.1 * r)
}

/// The direction of the long hand, as long.
pub open spec fn long_way(minute: int) -> (int, int) {
    (12 * DIAL@[minute % 60].0, 12 * DIAL@[minute % 60].1)
}

proof fn lemma_short_way(h: u32, m: u32)
    requires
        m < 60,
    ensures
        ({
            let d = icon::direction(icon::hour_place(h, m));
            let w = short_way(60 * (h % 12) + m);
            &&& apart(49_152 * d.0, w.0 * ONE) <= ONE / 8
            &&& apart(49_152 * d.1, w.1 * ONE) <= ONE / 8
            &&& -5 * ONE <= 4 * d.0 <= 5 * ONE
            &&& -5 * ONE <= 4 * d.1 <= 5 * ONE
        }),
{
    let one = ONE as int;
    let all = 60 * (h % 12) + m;
    let (i, r) = (all / 12, all % 12);
    law_short_hand_goes_a_twelfth(h, m);
    let pos = icon::hour_place(h, m) as int;
    let f = pos - i * one;
    assert(0 <= f < one);
    law_direction_is_on_the_dial(i as nat, f as nat);
    let d = icon::direction(pos as nat);
    let (a, b) = (DIAL@[i], DIAL@[(i + 1) % 60]);
    icon::lemma_dial(i);
    lemma_share(a.0 as int, b.0 as int, f, r, 4096 * d.0);
    lemma_share(a.1 as int, b.1 as int, f, r, 4096 * d.1);
}

proof fn lemma_share(a: int, b: int, f: int, r: int, d: int)
    requires
        -437 <= b - a <= 437,
        0 <= r < 12,
        apart(12 * f, r * ONE) <= ONE / 10_000,
        apart(d, a * ONE + (b - a) * f) <= ONE / 256,
    ensures
        apart(12 * d, (a * (12 - r) + b * r) * ONE) <= ONE / 8,
{
    let one = ONE as int;
    let e = 12 * f - r * one;
    let s = b - a;
    assert(apart(s * e, 0) <= 437 * (one / 10_000)) by (nonlinear_arith)
        requires
            -437 <= s <= 437,
            -(one / 10_000) <= e <= one / 10_000,
            one > 0,
    ;
    assert(12 * (s * f) == s * e + s * (r * one)) by (nonlinear_arith)
        requires
            12 * f == e + r * one,
    ;
    assert((a * (12 - r) + b * r) * one == 12 * (a * one) + s * (r * one)) by (nonlinear_arith)
        requires
            s == b - a,
    ;
}

proof fn lemma_long_way(m: u32)
    requires
        m < 60,
    ensures
        ({
            let d = icon::direction(icon::minute_place(m));
            let w = long_way(m as int);
            &&& 49_152 * d.0 == w.0 * ONE
            &&& 49_152 * d.1 == w.1 * ONE
            &&& -5 * ONE <= 4 * d.0 <= 5 * ONE
            &&& -5 * ONE <= 4 * d.1 <= 5 * ONE
        }),
{
    law_long_hand_points_to_the_minute(m);
    law_direction_is_on_the_dial(m as nat, 0);
}

/// Whether a coordinate of the point that is `k` half pixels from the middle, in a direction that is
/// 49152 long, lies in the pixel `x`, by more than `slack` parts in 98304 of a pixel; with a negative
/// `slack` it may lie beside it by as many. The middle is at 15.5.
pub open spec fn lies_in(way: int, k: int, x: int, slack: int) -> bool {
    98_304 * x + slack <= 1_523_712 + way * k <= 98_304 * (x + 1) - slack
}

proof fn lemma_along(d: int, way: int, k: int, x: int)
    requires
        -5 * ONE <= 4 * d <= 5 * ONE,
        apart(49_152 * d, way * ONE) <= ONE / 8,
        0 <= k <= 24,
    ensures
        lies_in(way, k, x, 8) ==> icon::along(d, k) == x,
        lies_in(way, k, icon::along(d, k), -8),
{
    let one = ONE as int;
    assert(-120 * one <= 4 * (d * k) <= 120 * one) by (nonlinear_arith)
        requires
            -5 * one <= 4 * d <= 5 * one,
            0 <= k <= 24,
    ;
    lemma_nearest_is_near(d * k, 2);
    let at = 31 * one / 2 + icon::nearest(d * k, 2);
    single::law_rounding_is_small(at as nat);
    let p = single::rounded(at as nat, 1) as int;
    assert(apart(49_152 * (d * k), (way * k) * one) <= 24 * (one / 8)) by (nonlinear_arith)
        requires
            apart(49_152 * d, way * one) <= one / 8,
            0 <= k <= 24,
    ;
    let w = way * k;
    assert(apart(98_304 * p, (1_523_712 + w) * one) <= 7 * one);
    let at_x = icon::along(d, k);
    assert(at_x * one <= p < (at_x + 1) * one);
    assert(98_304 * at_x - 7 <= 1_523_712 + w <= 98_304 * (at_x + 1) + 7) by (nonlinear_arith)
        requires
            at_x * one <= p < (at_x + 1) * one,
            apart(98_304 * p, (1_523_712 + w) * one) <= 7 * one,
            one > 0,
    ;
    if lies_in(way, k, x, 8) {
        assert(98_304 * x < 98_304 * at_x + 98_304 && 98_304 * at_x < 98_304 * x + 98_304);
    }
}

/// Whether the point of a hand that is `k` half pixels from the middle lies in the pixel `(x, y)`: the
/// short hand is eight pixels long, the long one twelve.
pub open spec fn hand_in(h: u32, m: u32, k: int, x: int, y: int, slack: int) -> bool {
    let (v, w) = (short_way(60 * (h % 12) + m), long_way(m as int));
    ||| 0 <= k <= 16 && lies_in(v.0, k, x, slack) && lies_in(v.1, k, y, slack)
    ||| 0 <= k <= 24 && lies_in(w.0, k, x, slack) && lies_in(w.1, k, y, slack)
}

/// The hands lie where they point. Each point of the short hand, up to eight pixels from the middle,
/// and each of the long one, up to twelve, is white in the pixel that it lies in.
pub proof fn law_hands_are_drawn(h: u32, m: u32, k: int, x: int, y: int)
    requires
        m < 60,
        hand_in(h, m, k, x, y, 8),
    ensures
        icon::clock_pixel(h, m, x, y) == (255u8, 255u8, 255u8, 255u8),
{
    lemma_short_way(h, m);
    lemma_long_way(m);
    let (a, b) = (
        icon::direction(icon::hour_place(h, m)),
        icon::direction(icon::minute_place(m)),
    );
    let (v, w) = (short_way(60 * (h % 12) + m), long_way(m as int));
    lemma_along(a.0, v.0, k, x);
    lemma_along(a.1, v.1, k, y);
    lemma_along(b.0, w.0, k, x);
    lemma_along(b.1, w.1, k, y);
}

/// Nothing else is drawn over the dial: a pixel that is not as the dial has it is one in which a
/// point of a hand lies.
pub proof fn law_only_the_hands_are_drawn(h: u32, m: u32, x: int, y: int)
    requires
        m < 60,
        icon::clock_pixel(h, m, x, y) != icon::face_pixel(x, y),
    ensures
        exists|k: int| #[trigger] hand_in(h, m, k, x, y, -8),
{
    lemma_short_way(h, m);
    lemma_long_way(m);
    let (a, b) = (
        icon::direction(icon::hour_place(h, m)),
        icon::direction(icon::minute_place(m)),
    );
    let (v, w) = (short_way(60 * (h % 12) + m), long_way(m as int));
    if icon::on_hand(a, 16, x, y) {
        let k = choose|k: int|
            0 <= k <= 16 && #[trigger] icon::along(a.0, k) == x && icon::along(a.1, k) == y;
        lemma_along(a.0, v.0, k, x);
        lemma_along(a.1, v.1, k, y);
        assert(hand_in(h, m, k, x, y, -8));
    } else {
        let k = choose|k: int|
            0 <= k <= 24 && #[trigger] icon::along(b.0, k) == x && icon::along(b.1, k) == y;
        lemma_along(b.0, w.0, k, x);
        lemma_along(b.1, w.1, k, y);
        assert(hand_in(h, m, k, x, y, -8));
    }
}

/// At the full hour the short hand points to that hour's place on the dial, five minutes for each
/// hour, and an hour later five minutes further on.
pub proof fn law_short_hand_at_full_hours(h: u32)
    requires
        h < u32::MAX,
    ensures
        ({
            let d = icon::direction(icon::hour_place(h, 0));
            let v = DIAL@[5 * (h % 12) as int];
            4096 * d.0 == v.0 * ONE && 4096 * d.1 == v.1 * ONE
        }),
        (icon::hour_place((h + 1) as u32, 0) - icon::hour_place(h, 0)) % (60 * ONE as int) == 5 * ONE,
{
    law_short_hand_goes_a_twelfth(h, 0);
    law_short_hand_goes_a_twelfth((h + 1) as u32, 0);
    law_direction_is_on_the_dial((5 * (h % 12)) as nat, 0);
    let x = icon::hour_place((h + 1) as u32, 0) - icon::hour_place(h, 0);
    if h % 12 == 11 {
        assert((h + 1) % 12 == 0);
        assert(x == -55 * ONE);
        vstd::arithmetic::div_mod::lemma_fundamental_div_mod_converse(x, 60 * ONE as int, -1, 5 * ONE);
    } else {
        assert((h + 1) % 12 == h % 12 + 1);
        assert(x == 5 * ONE);
        vstd::arithmetic::div_mod::lemma_fundamental_div_mod_converse(x, 60 * ONE as int, 0, 5 * ONE);
    }
}

} // verus!
