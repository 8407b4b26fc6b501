//! Effects on text, and the colors along it. The text becomes a coverage of each pixel; an effect
//! blurs, erodes and moves it, and lays the results over the canvas one after the other.
use crate::mask;
use crate::mask::{place_of, Mask};
use crate::render;
use crate::render::{blend_pixel, parse_color_chars, premultiply, push_hex, Canvas};
use crate::sine;
use crate::sine::height;
use crate::single;
use crate::single::{round, ONE};
use crate::strings;
use crate::strings::{chars_of, same, split};
use crate::text::{Glyph, Run};
use vstd::prelude::*;

verus! {

/// How long the colors take to flow along the text and back.
pub const GRADIENT_PERIOD_MS: u32 = 2000;

/// The largest number of colors of a gradient.
pub const MAX_STOPS: usize = 20;

/// An effect on text.
#[derive(Clone, Copy, Debug, PartialEq, Eq, Structural)]
pub enum Effect {
    Plain,
    Glow,
    Glass,
    Neon,
    Holographic,
    Liquid,
    Aqua,
    Retro,
}

/// Each effect, in the order of the menu.
pub const EFFECTS: [Effect; 8] = [
    Effect::Plain,
    Effect::Glow,
    Effect::Glass,
    Effect::Neon,
    Effect::Holographic,
    Effect::Liquid,
    Effect::Aqua,
    Effect::Retro,
];

/// The effect with this name in the configuration.
pub open spec fn effect_named(s: Seq<char>) -> Option<Effect> {
    if s == "none"@ {
        Some(Effect::Plain)
    } else if s == "glow"@ {
        Some(Effect::Glow)
    } else if s == "glass"@ {
        Some(Effect::Glass)
    } else if s == "neon"@ {
        Some(Effect::Neon)
    } else if s == "holographic"@ {
        Some(Effect::Holographic)
    } else if s == "liquid"@ {
        Some(Effect::Liquid)
    } else if s == "aqua"@ {
        Some(Effect::Aqua)
    } else if s == "retro"@ {
        Some(Effect::Retro)
    } else {
        None
    }
}

impl Effect {
    /// The name in the configuration.
    pub open spec fn text(self) -> Seq<char> {
        match self {
            Effect::Plain => "none"@,
            Effect::Glow => "glow"@,
            Effect::Glass => "glass"@,
            Effect::Neon => "neon"@,
            Effect::Holographic => "holographic"@,
            Effect::Liquid => "liquid"@,
            Effect::Aqua => "aqua"@,
            Effect::Retro => "retro"@,
        }
    }

    /// The label in the menu.
    pub open spec fn label_text(self) -> Seq<char> {
        match self {
            Effect::Plain => "无"@,
            Effect::Glow => "辉光"@,
            Effect::Glass => "玻璃"@,
            Effect::Neon => "霓虹灯管"@,
            Effect::Holographic => "全息"@,
            Effect::Liquid => "液态流动"@,
            Effect::Aqua => "水波"@,
            Effect::Retro => "复古投影"@,
        }
    }

    /// The effect with this name in the configuration.
    pub fn from_name(name: &str) -> (r: Option<Effect>)
        ensures
            r == effect_named(name@),
    {
        if same(name, "none") {
            Some(Effect::Plain)
        } else if same(name, "glow") {
            Some(Effect::Glow)
        } else if same(name, "glass") {
            Some(Effect::Glass)
        } else if same(name, "neon") {
            Some(Effect::Neon)
        } else if same(name, "holographic") {
            Some(Effect::Holographic)
        } else if same(name, "liquid") {
            Some(Effect::Liquid)
        } else if same(name, "aqua") {
            Some(Effect::Aqua)
        } else if same(name, "retro") {
            Some(Effect::Retro)
        } else {
            None
        }
    }

    /// The name in the configuration.
    pub fn name(self) -> (r: &'static str)
        ensures
            r@ == self.text(),
    {
        match self {
            Effect::Plain => "none",
            Effect::Glow => "glow",
            Effect::Glass => "glass",
            Effect::Neon => "neon",
            Effect::Holographic => "holographic",
            Effect::Liquid => "liquid",
            Effect::Aqua => "aqua",
            Effect::Retro => "retro",
        }
    }

    /// The label in the menu.
    pub fn label(self) -> (r: &'static str)
        ensures
            r@ == self.label_text(),
    {
        match self {
            Effect::Plain => "无",
            Effect::Glow => "辉光",
            Effect::Glass => "玻璃",
            Effect::Neon => "霓虹灯管",
            Effect::Holographic => "全息",
            Effect::Liquid => "液态流动",
            Effect::Aqua => "水波",
            Effect::Retro => "复古投影",
        }
    }

    /// Whether it moves, and so is drawn again and again.
    pub fn animated(self) -> (r: bool)
        ensures
            r == (self == Effect::Liquid || self == Effect::Aqua),
    {
        matches!(self, Effect::Liquid | Effect::Aqua)
    }
}

/// An effect is read back from its name.
pub proof fn law_effect_names_roundtrip(e: Effect)
    ensures
        effect_named(e.text()) == Some(e),
{
    reveal_strlit("none");
    reveal_strlit("glow");
    reveal_strlit("glass");
    reveal_strlit("neon");
    reveal_strlit("holographic");
    reveal_strlit("liquid");
    reveal_strlit("aqua");
    reveal_strlit("retro");
    assert("glow"@.len() == 4 && "glass"@.len() == 5);
    assert("none"@[1] == 'o' && "neon"@[1] == 'e');
    assert("none"@[0] == 'n' && "glow"@[0] == 'g' && "holographic"@[0] == 'h' && "liquid"@[0] == 'l'
        && "aqua"@[0] == 'a' && "retro"@[0] == 'r');
}

// ---- gradients ----

/// The colors along a text: one is the same everywhere, two run from the left to the right, and
/// more flow.
#[derive(Debug, PartialEq, Eq)]
pub struct Gradient {
    pub stops: Vec<u32>,
}

/// The colors that the pieces write; `None` where one writes none.
pub open spec fn stops_of(pieces: Seq<Seq<char>>) -> Option<Seq<u32>>
    decreases pieces.len(),
{
    if pieces.len() == 0 {
        Some(Seq::empty())
    } else {
        match (stops_of(pieces.drop_last()), render::color(pieces.last())) {
            (Some(before), Some(c)) => Some(before.push(c)),
            _ => None,
        }
    }
}

/// The colors that `s` writes, with `_` between them: at most twenty, and none if one is no color.
pub open spec fn gradient(s: Seq<char>) -> Option<Seq<u32>> {
    match stops_of(strings::pieces(s, seq!['_'])) {
        Some(stops) => if stops.len() <= MAX_STOPS {
            Some(stops)
        } else {
            None
        },
        None => None,
    }
}

/// The number `v` on a line that runs up from 0 to 1 and back, again and again.
pub open spec fn pingpong(v: nat) -> nat {
    let one = ONE as nat;
    let r = v % (2 * one);
    if r < one {
        r
    } else {
        (2 * one - r) as nat
    }
}

/// One component between two colors, `t` of the way from the first to the second.
pub open spec fn mix_part(a: u32, b: u32, shift: u32, t: nat) -> int {
    let one = ONE as nat;
    let x = render::channel(a, shift);
    let y = render::channel(b, shift);
    let sum = if y >= x {
        single::rounded((x * one + single::rounded(((y - x) * t) as nat, 1)) as nat, 1)
    } else {
        let back = single::rounded(((x - y) * t) as nat, 1);
        if back > x * one {
            0
        } else {
            single::rounded((x * one - back) as nat, 1)
        }
    };
    let n = ((sum + one / 2) / one) as int;
    if n > 255 {
        255
    } else {
        n
    }
}

/// The color `t` of the way from `a` to `b`, each component on its own.
pub open spec fn mixture(a: u32, b: u32, t: nat) -> int {
    mix_part(a, b, 16, t) * 0x1_0000 + mix_part(a, b, 8, t) * 0x100 + mix_part(a, b, 0, t)
}

/// Where the column `x` of `width` is, from 0 at the left to 1 at the right. Colors that flow run
/// forth and back once in a period.
pub open spec fn along(x: int, width: u32, flows: bool, phase_ms: u32) -> nat {
    let one = ONE as nat;
    let top = if width == 0 {
        0int
    } else {
        width - 1
    };
    let w = if width == 0 {
        1int
    } else {
        width as int
    };
    let column = single::rounded(render::limited(x, 0, top) as nat, 1);
    let u = single::rounded(column * one, single::rounded(w as nat, 1));
    if flows {
        let p = single::rounded(2 * (phase_ms % GRADIENT_PERIOD_MS) as nat * one, 2000);
        pingpong(single::rounded(u + p, 1))
    } else {
        u
    }
}

/// The color of the colors `stops` at the column `x` of `width`.
pub open spec fn color_at(stops: Seq<u32>, x: int, width: u32, phase_ms: u32) -> int {
    if stops.len() == 1 {
        stops[0] as int
    } else {
        let one = ONE as nat;
        let n = stops.len();
        let u = along(x, width, n > 2, phase_ms);
        let f = single::rounded((u * (n - 1)) as nat, 1);
        let f = if f > (n - 1) * one {
            ((n - 1) * one) as nat
        } else {
            f
        };
        let i = if f / one > n - 2 {
            n - 2
        } else {
            (f / one) as int
        };
        mixture(stops[i], stops[i + 1], share(f - i * one))
    }
}

/// One component between two colors.
fn mix_channel(a: u32, b: u32, shift: u32, t: u128) -> (r: u32)
    requires
        shift <= 24,
        t <= ONE,
    ensures
        r == mix_part(a, b, shift, t as nat),
        r <= 255,
{
    assert((a >> shift) & 0xff <= 255 && (b >> shift) & 0xff <= 255) by (bit_vector);
    let x: u128 = ((a >> shift) & 0xff) as u128;
    let y: u128 = ((b >> shift) & 0xff) as u128;
    let sum: u128 = if y >= x {
        let d: u128 = y - x;
        assert(0 <= d * t <= 255 * ONE) by (nonlinear_arith)
            requires
                0 <= d <= 255,
                0 <= t <= ONE,
        ;
        let step: u128 = round(d * t, 1);
        round(x * ONE + step, 1)
    } else {
        let d: u128 = x - y;
        assert(0 <= d * t <= 255 * ONE) by (nonlinear_arith)
            requires
                0 <= d <= 255,
                0 <= t <= ONE,
        ;
        let back: u128 = round(d * t, 1);
        if back > x * ONE {
            0
        } else {
            round(x * ONE - back, 1)
        }
    };
    let n: u128 = (sum + ONE / 2) / ONE;
    if n > 255 {
        255
    } else {
        n as u32
    }
}

/// `t` of the way, but not further than all of it, nor back.
pub open spec fn share(t: int) -> nat {
    if t < 0 {
        0
    } else if t > ONE {
        ONE as nat
    } else {
        t as nat
    }
}

/// The color `t` of the way from `a` to `b`, in units of `2^-64`; what is beyond is `b`, and what is
/// before is `a`.
pub fn mix(a: u32, b: u32, t: i128) -> (r: u32)
    ensures
        r == mixture(a, b, share(t as int)),
{
    let t: u128 = if t < 0 {
        0
    } else if t > ONE as i128 {
        ONE
    } else {
        t as u128
    };
    let (r, g, b): (u32, u32, u32) = (
        mix_channel(a, b, 16, t),
        mix_channel(a, b, 8, t),
        mix_channel(a, b, 0, t),
    );
    r * 0x1_0000 + g * 0x100 + b
}

/// Where the column `x` of `width` is, from 0 at the left to 1 at the right.
fn place(x: i64, width: u32, flows: bool, phase_ms: u32) -> (u: u128)
    ensures
        u == along(x as int, width, flows, phase_ms),
        u <= 10 * ONE,
{
    let top: i64 = if width == 0 {
        0
    } else {
        width as i64 - 1
    };
    let w: u128 = if width == 0 {
        1
    } else {
        width as u128
    };
    let c: i64 = if x < 0 {
        0
    } else if x > top {
        top
    } else {
        x
    };
    let column: u128 = round(c as u128, 1);
    let over: u128 = round(w, 1);
    proof {
        single::law_rounding_is_small(w as nat);
        single::law_rounding_is_small(c as nat);
    }
    let mut u: u128 = round(column * ONE, over);
    proof {
        assert(column * ONE / (over as int) <= 2 * ONE) by (nonlinear_arith)
            requires
                column <= 2 * over,
                over > 0,
        ;
    }
    if flows {
        let p: u128 = round(2 * (phase_ms % GRADIENT_PERIOD_MS) as u128 * ONE, 2000);
        let v: u128 = round(u + p, 1);
        let r: u128 = v % (2 * ONE);
        u = if r < ONE {
            r
        } else {
            2 * ONE - r
        };
    }
    u
}

impl Clone for Gradient {
    fn clone(&self) -> (r: Self)
        ensures
            r.stops@ == self.stops@,
    {
        let stops = self.stops.clone();
        assert(stops@ =~= self.stops@);
        Gradient { stops }
    }
}

impl Gradient {
    /// Whether there is a color.
    pub open spec fn wf(self) -> bool {
        1 <= self.stops@.len() <= MAX_STOPS
    }

    /// One color everywhere.
    pub fn solid(color: u32) -> (r: Self)
        ensures
            r.stops@ == seq![color],
            r.wf(),
    {
        let mut stops: Vec<u32> = Vec::new();
        stops.push(color);
        assert(stops@ =~= seq![color]);
        Gradient { stops }
    }

    /// The colors that `s` writes, such as `#FF5E96_#56C6FF`.
    pub fn parse(s: &str) -> (r: Option<Gradient>)
        ensures
            match r {
                Some(g) => gradient(s@) == Some(g.stops@) && g.wf(),
                None => gradient(s@) is None,
            },
    {
        let chars = chars_of(s);
        let seps: [char; 1] = ['_'];
        assert(seps@ =~= seq!['_']);
        let all = split(&chars, &seps);
        let ghost rows = strings::rows(all@);
        let mut stops: Vec<u32> = Vec::new();
        let mut i: usize = 0;
        assert(rows.take(0).len() == 0);
        assert(stops@ =~= Seq::<u32>::empty());
        while i < all.len()
            invariant
                i <= all@.len(),
                rows == strings::rows(all@),
                rows == strings::pieces(s@, seq!['_']),
                stops_of(rows.take(i as int)) == Some(stops@),
                stops@.len() == i,
            decreases all@.len() - i,
        {
            proof {
                assert(rows.take(i + 1).drop_last() =~= rows.take(i as int));
                assert(rows.take(i + 1).last() == all@[i as int]@);
            }
            match parse_color_chars(&all[i]) {
                Some(c) => {
                    stops.push(c);
                },
                None => {
                    proof {
                        lemma_stops_none(rows, i + 1);
                    }
                    return None;
                },
            }
            i = i + 1;
        }
        proof {
            assert(rows.take(rows.len() as int) =~= rows);
            strings::lemma_pieces_nonempty(s@, seq!['_']);
        }
        if stops.len() > MAX_STOPS {
            return None;
        }
        Some(Gradient { stops })
    }

    /// Whether there is more than one color.
    pub fn is_gradient(&self) -> (r: bool)
        ensures
            r == (self.stops@.len() > 1),
    {
        self.stops.len() > 1
    }

    /// Whether the colors flow.
    pub fn animated(&self) -> (r: bool)
        ensures
            r == (self.stops@.len() > 2),
    {
        self.stops.len() > 2
    }

    /// The last color.
    pub fn tail(&self) -> (r: u32)
        ensures
            r == (if self.stops@.len() > 0 {
                self.stops@.last()
            } else {
                0
            }),
    {
        if self.stops.len() == 0 {
            0
        } else {
            self.stops[self.stops.len() - 1]
        }
    }

    /// The color of the column `x` of a canvas of `width`, `phase_ms` after the start.
    pub fn at(&self, x: i32, width: u32, phase_ms: u32) -> (r: u32)
        requires
            self.wf(),
        ensures
            r == color_at(self.stops@, x as int, width, phase_ms),
    {
        self.color(x as i64, width, phase_ms)
    }

    /// The color of the column `x` of a canvas of `width`.
    fn color(&self, x: i64, width: u32, phase_ms: u32) -> (r: u32)
        requires
            self.wf(),
        ensures
            r == color_at(self.stops@, x as int, width, phase_ms),
    {
        let n: usize = self.stops.len();
        if n == 1 {
            return self.stops[0];
        }
        let u: u128 = place(x, width, n > 2, phase_ms);
        let last: u128 = (n - 1) as u128;
        assert(0 <= u * last <= 190 * ONE) by (nonlinear_arith)
            requires
                0 <= u <= 10 * ONE,
                last <= 19,
        ;
        let f: u128 = round(u * last, 1);
        let f: u128 = if f > last * ONE {
            last * ONE
        } else {
            f
        };
        let i: usize = if f / ONE > (n - 2) as u128 {
            n - 2
        } else {
            (f / ONE) as usize
        };
        let t: u128 = f - i as u128 * ONE;
        mix(self.stops[i], self.stops[i + 1], t as i128)
    }
}

/// How one of several colors stands in the configuration.
pub open spec fn stop_text(c: u32) -> Seq<char> {
    seq!['#'] + render::hex_text(c as nat, 6)
}

/// How the colors stand in the configuration: one as bare digits, and more with `#` in front of
/// each and `_` between them.
pub open spec fn gradient_text(stops: Seq<u32>) -> Seq<char> {
    if stops.len() == 1 {
        render::hex_text((stops[0] & 0xff_ffff) as nat, 6)
    } else {
        strings::joined(stops.map_values(|c: u32| stop_text(c)), '_')
    }
}

impl Gradient {
    /// How the colors stand in the configuration.
    pub fn to_config_string(&self) -> (r: String)
        ensures
            r@ == gradient_text(self.stops@),
    {
        let mut out = String::new();
        if self.stops.len() == 1 {
            push_hex(&mut out, self.stops[0] & 0xff_ffff, 6);
            assert(out@ =~= gradient_text(self.stops@));
            return out;
        }
        let ghost parts = self.stops@.map_values(|c: u32| stop_text(c));
        let mut i: usize = 0;
        assert(out@ =~= strings::joined(parts.take(0), '_'));
        while i < self.stops.len()
            invariant
                i <= self.stops@.len(),
                parts == self.stops@.map_values(|c: u32| stop_text(c)),
                out@ == strings::joined(parts.take(i as int), '_'),
            decreases self.stops@.len() - i,
        {
            let ghost before = out@;
            if i > 0 {
                out.push('_');
            }
            out.push('#');
            push_hex(&mut out, self.stops[i], 6);
            proof {
                assert(parts.take(i + 1).drop_last() =~= parts.take(i as int));
                assert(parts.take(i + 1).last() == stop_text(self.stops@[i as int]));
                if i == 0 {
                    assert(before =~= Seq::<char>::empty());
                    assert(out@ =~= stop_text(self.stops@[0]));
                } else {
                    assert(out@ =~= before.push('_') + stop_text(self.stops@[i as int]));
                }
            }
            i = i + 1;
        }
        assert(parts.take(parts.len() as int) =~= parts);
        out
    }
}

proof fn lemma_stops(pieces: Seq<Seq<char>>)
    ensures
        stops_of(pieces) is Some <==> forall|i: int|
            0 <= i < pieces.len() ==> render::color(#[trigger] pieces[i]) is Some,
        stops_of(pieces) matches Some(stops) ==> stops.len() == pieces.len() && forall|i: int|
            0 <= i < pieces.len() ==> render::color(pieces[i]) == Some(#[trigger] stops[i]),
    decreases pieces.len(),
{
    if pieces.len() > 0 {
        let front = pieces.drop_last();
        lemma_stops(front);
        if stops_of(pieces) is Some {
            let stops = stops_of(pieces)->0;
            assert forall|i: int| 0 <= i < pieces.len() implies render::color(pieces[i]) == Some(
                #[trigger] stops[i],
            ) by {
                if i < front.len() {
                    assert(front[i] == pieces[i]);
                    assert(stops_of(front)->0[i] == stops[i]);
                }
            }
            assert forall|i: int| 0 <= i < pieces.len() implies render::color(
                #[trigger] pieces[i],
            ) is Some by {
                assert(render::color(pieces[i]) == Some(stops[i]));
            }
        } else if forall|i: int|
            0 <= i < pieces.len() ==> render::color(#[trigger] pieces[i]) is Some {
            assert forall|i: int| 0 <= i < front.len() implies render::color(
                #[trigger] front[i],
            ) is Some by {
                assert(front[i] == pieces[i]);
            }
            assert(render::color(pieces[pieces.len() - 1]) is Some);
        }
    }
}

/// A gradient is read where there are at most twenty pieces and each is a color, and its colors are
/// those of the pieces, in their order; one piece that is no color makes all of it void.
pub proof fn law_gradient_is_its_pieces(s: Seq<char>)
    ensures
        ({
            let pieces = strings::pieces(s, seq!['_']);
            &&& gradient(s) is Some <==> pieces.len() <= MAX_STOPS && forall|i: int|
                0 <= i < pieces.len() ==> render::color(#[trigger] pieces[i]) is Some
            &&& gradient(s) matches Some(stops) ==> stops.len() == pieces.len() && stops.len() > 0
                && render::color(pieces.last()) == Some(stops.last()) && forall|i: int|
                0 <= i < pieces.len() ==> render::color(pieces[i]) == Some(#[trigger] stops[i])
        }),
{
    let pieces = strings::pieces(s, seq!['_']);
    lemma_stops(pieces);
    strings::lemma_pieces_nonempty(s, seq!['_']);
    if gradient(s) is Some {
        assert(render::color(pieces[pieces.len() - 1]) == Some((gradient(s)->0)[pieces.len() - 1]));
    }
}

/// What was read as a gradient is read back from what is written for it: one color as six bare
/// digits, more with a `#` each and `_` between them.
pub proof fn law_gradient_is_written_back(s: Seq<char>)
    requires
        gradient(s) is Some,
    ensures
        gradient(gradient_text(gradient(s)->0)) == gradient(s),
        ({
            let stops = gradient(s)->0;
            if stops.len() == 1 {
                gradient_text(stops) == render::hex_text(stops[0] as nat, 6)
            } else {
                gradient_text(stops) == strings::joined(
                    stops.map_values(|c: u32| seq!['#'] + render::hex_text(c as nat, 6)),
                    '_',
                )
            }
        }),
{
    let stops = gradient(s)->0;
    let pieces = strings::pieces(s, seq!['_']);
    law_gradient_is_its_pieces(s);
    assert forall|i: int| 0 <= i < stops.len() implies #[trigger] stops[i] <= 0xff_ffff by {
        render::law_color_is_opaque(pieces[i]);
    }
    law_gradient_roundtrip(stops);
    if stops.len() == 1 {
        let c = stops[0];
        assert(c & 0xff_ffff == c) by (bit_vector)
            requires
                c <= 0xff_ffff,
        ;
    } else {
        assert(stops.map_values(|c: u32| stop_text(c)) =~= stops.map_values(
            |c: u32| seq!['#'] + render::hex_text(c as nat, 6),
        ));
    }
}

/// The colors of a gradient are read back from what stands in the configuration.
pub proof fn law_gradient_roundtrip(stops: Seq<u32>)
    requires
        1 <= stops.len() <= MAX_STOPS,
        forall|i: int| 0 <= i < stops.len() ==> #[trigger] stops[i] <= 0xff_ffff,
    ensures
        gradient(gradient_text(stops)) == Some(stops),
{
    let seps = seq!['_'];
    if stops.len() == 1 {
        let c = stops[0];
        assert(c & 0xff_ffff == c) by (bit_vector)
            requires
                c <= 0xff_ffff,
        ;
        let t = render::hex_text(c as nat, 6);
        render::law_color_roundtrip(c);
        lemma_no_bar(t);
        strings::lemma_one_piece(t, seps);
        let rows = seq![t];
        assert(rows.drop_last() =~= Seq::<Seq<char>>::empty());
        assert(stops_of(rows.drop_last()) == Some(Seq::<u32>::empty()));
        assert(Seq::<u32>::empty().push(c) =~= stops);
        assert(stops_of(rows) == Some(stops));
    } else {
        let parts = stops.map_values(|c: u32| stop_text(c));
        assert forall|i: int| 0 <= i < parts.len() implies strings::free_of(#[trigger] parts[i], seps) by {
            assert(stops[i] <= 0xff_ffff);
            render::law_color_roundtrip(stops[i]);
            lemma_no_bar(render::hex_text(stops[i] as nat, 6));
            let h = render::hex_text(stops[i] as nat, 6);
            assert forall|k: int| 0 <= k < parts[i].len() implies !seps.contains(#[trigger] parts[i][k]) by {
                if k > 0 {
                    assert(parts[i][k] == h[k - 1]);
                    assert(!seps.contains(h[k - 1]));
                } else {
                    assert(parts[i][0] == '#');
                }
            }
        }
        strings::law_join_split(parts, '_');
        lemma_stops_of_texts(stops, stops.len() as int);
        assert(parts.take(parts.len() as int) =~= parts);
        assert(stops.take(stops.len() as int) =~= stops);
    }
}

proof fn lemma_no_bar(s: Seq<char>)
    requires
        render::plain_hex(s),
    ensures
        strings::free_of(s, seq!['_']),
{
    assert forall|i: int| 0 <= i < s.len() implies !seq!['_'].contains(#[trigger] s[i]) by {
        assert('0' <= s[i] <= '9' || 'a' <= s[i] <= 'f');
    }
}

proof fn lemma_stops_of_texts(stops: Seq<u32>, n: int)
    requires
        0 <= n <= stops.len(),
        forall|i: int| 0 <= i < stops.len() ==> #[trigger] stops[i] <= 0xff_ffff,
    ensures
        stops_of(stops.map_values(|c: u32| stop_text(c)).take(n)) == Some(stops.take(n)),
    decreases n,
{
    let parts = stops.map_values(|c: u32| stop_text(c));
    if n == 0 {
        assert(parts.take(0).len() == 0);
        assert(stops.take(0) =~= Seq::<u32>::empty());
    } else {
        lemma_stops_of_texts(stops, n - 1);
        assert(parts.take(n).drop_last() =~= parts.take(n - 1));
        assert(parts.take(n).last() == stop_text(stops[n - 1]));
        assert(stops[n - 1] <= 0xff_ffff);
        render::law_color_roundtrip(stops[n - 1]);
        assert(stops.take(n - 1).push(stops[n - 1]) =~= stops.take(n));
    }
}

/// The colors that flow are the same again after a period.
pub proof fn law_gradient_loops(stops: Seq<u32>, x: int, width: u32, phase_ms: u32)
    requires
        phase_ms + GRADIENT_PERIOD_MS <= u32::MAX,
    ensures
        color_at(stops, x, width, (phase_ms + GRADIENT_PERIOD_MS) as u32) == color_at(
            stops,
            x,
            width,
            phase_ms,
        ),
{
}

proof fn lemma_stops_none(rows: Seq<Seq<char>>, n: int)
    requires
        0 < n <= rows.len(),
        stops_of(rows.take(n)) is None,
    ensures
        stops_of(rows) is None,
    decreases rows.len() - n,
{
    if n < rows.len() {
        assert(rows.take(n + 1).drop_last() =~= rows.take(n));
        lemma_stops_none(rows, n + 1);
    } else {
        assert(rows.take(n) =~= rows);
    }
}

// ---- layers ----

/// The color of each column of a canvas of `width`.
pub open spec fn columns(stops: Seq<u32>, width: u32, phase_ms: u32) -> Seq<u32> {
    Seq::new(width as nat, |x: int| color_at(stops, x, width, phase_ms) as u32)
}

/// The same color for each column.
pub open spec fn flat(color: u32, width: u32) -> Seq<u32> {
    Seq::new(width as nat, |x: int| color)
}

/// A canvas after a coverage, which is `pad` wider on each side, is laid over it in the colors of
/// the columns, `gain / 255` as strong, or added to it.
pub open spec fn laid(
    buf: Seq<u32>,
    w: int,
    h: int,
    m: mask::Cover,
    pad: int,
    colors: Seq<u32>,
    gain: int,
    additive: bool,
) -> Seq<u32> {
    Seq::new(
        buf.len(),
        |j: int|
            if j < w * h {
                render::blended(
                    buf[j],
                    render::premultiplied(
                        colors[j % w],
                        (m.cell(j % w + pad, j / w + pad) * gain / 255) as u8,
                    ) as u32,
                    additive,
                )
            } else {
                buf[j]
            },
    )
}

/// The color of each column.
fn column_colors(grad: &Gradient, width: u32, phase_ms: u32) -> (r: Vec<u32>)
    requires
        grad.wf(),
    ensures
        r@ == columns(grad.stops@, width, phase_ms),
{
    let mut out: Vec<u32> = Vec::new();
    let mut x: u32 = 0;
    while x < width
        invariant
            x <= width,
            grad.wf(),
            out@.len() == x,
            forall|j: int|
                0 <= j < x ==> out@[j] == color_at(grad.stops@, j, width, phase_ms) as u32,
        decreases width - x,
    {
        let c: u32 = grad.color(x as i64, width, phase_ms);
        out.push(c);
        x = x + 1;
    }
    assert(out@ =~= columns(grad.stops@, width, phase_ms));
    out
}

/// The same color for each column.
fn flat_colors(color: u32, width: u32) -> (r: Vec<u32>)
    ensures
        r@ == flat(color, width),
{
    let mut out: Vec<u32> = Vec::new();
    let mut x: u32 = 0;
    while x < width
        invariant
            x <= width,
            out@.len() == x,
            forall|j: int| 0 <= j < x ==> out@[j] == color,
        decreases width - x,
    {
        out.push(color);
        x = x + 1;
    }
    assert(out@ =~= flat(color, width));
    out
}

/// Lays a coverage over the canvas, or adds it.
fn layer(canvas: &mut Canvas, m: &Mask, pad: u32, colors: &[u32], gain: u8, additive: bool)
    requires
        old(canvas).wf(),
        m.wf(),
        colors@.len() == old(canvas).width,
    ensures
        final(canvas).buf@ == laid(
            old(canvas).buf@,
            old(canvas).width as int,
            old(canvas).height as int,
            m@,
            pad as int,
            colors@,
            gain as int,
            additive,
        ),
        final(canvas).width == old(canvas).width,
        final(canvas).height == old(canvas).height,
        final(final(canvas).buf)@ == final(old(canvas).buf)@,
{
    let ghost before = canvas.buf@;
    let ghost w = canvas.width as int;
    let ghost h = canvas.height as int;
    let ghost goal = laid(before, w, h, m@, pad as int, colors@, gain as int, additive);
    let width: u32 = canvas.width;
    let n: usize = (canvas.width * canvas.height) as usize;
    let mut i: usize = 0;
    while i < n
        invariant
            i <= n,
            n == w * h,
            canvas.wf(),
            m.wf(),
            width == w,
            canvas.width == w,
            canvas.height == h,
            w == old(canvas).width,
            h == old(canvas).height,
            colors@.len() == w,
            canvas.buf@.len() == before.len(),
            goal == laid(before, w, h, m@, pad as int, colors@, gain as int, additive),
            forall|j: int| 0 <= j < i ==> canvas.buf@[j] == goal[j],
            forall|j: int| i <= j < before.len() ==> canvas.buf@[j] == before[j],
            final(canvas.buf)@ == final(old(canvas).buf)@,
        decreases n - i,
    {
        assert(w > 0) by (nonlinear_arith)
            requires
                0 <= i < w * h,
                w >= 0,
        ;
        proof {
            render::lemma_row_col(i as int, w, h);
        }
        let x: u32 = (i as u64 % width as u64) as u32;
        let y: u32 = (i as u64 / width as u64) as u32;
        let v: u8 = if x <= u32::MAX - pad && y <= u32::MAX - pad {
            m.get(x + pad, y + pad)
        } else {
            0
        };
        assert(0 <= v * gain <= 65_025) by (nonlinear_arith)
            requires
                0 <= v <= 255,
                0 <= gain <= 255,
        ;
        let a: u8 = (v as u32 * gain as u32 / 255) as u8;
        let dst: u32 = canvas.buf[i];
        let c: u32 = blend_pixel(dst, premultiply(colors[x as usize], a), additive);
        canvas.buf[i] = c;
        i = i + 1;
    }
    assert(canvas.buf@ =~= goal);
}

// ---- the text as a coverage ----

/// A line of text, and how large a pixel of its bitmaps is.
pub struct Row<'a> {
    pub run: &'a Run,
    pub scale: u32,
}

/// How far a line in a rectangle of `w` is moved to the right: to its middle.
pub open spec fn indent(w: int, run: Run) -> int {
    if w > run.width {
        (w - run.width) / 2
    } else {
        0
    }
}

/// The coverage of the first `n` glyphs of a line.
pub open spec fn with_glyphs(c: mask::Cover, glyphs: Seq<Glyph>, dx: int, dy: int, n: int) -> mask::Cover
    decreases n,
{
    if n <= 0 {
        c
    } else {
        with_glyphs(c, glyphs, dx, dy, n - 1).with_glyph(glyphs[n - 1], dx, dy)
    }
}

/// The coverage of the first `n` lines in a rectangle with a margin of `off` around it, each in the
/// middle of what is inside the margin, or from its left edge where it is wider.
pub open spec fn text_cover(w: int, h: int, rows: Seq<Row>, off: int, n: int) -> mask::Cover
    decreases n,
{
    if n <= 0 {
        mask::Cover::new(w, h, |x: int, y: int| 0u8)
    } else {
        let run = *rows[n - 1].run;
        with_glyphs(
            text_cover(w, h, rows, off, n - 1),
            run.glyphs@,
            indent(w - 2 * off, run) + off,
            off,
            run.glyphs@.len() as int,
        )
    }
}

/// Whether each glyph has its pixels.
pub open spec fn rows_wf(rows: Seq<Row>) -> bool {
    forall|r: int, i: int|
        0 <= r < rows.len() && 0 <= i < rows[r].run.glyphs@.len() ==> (
        #[trigger] rows[r].run.glyphs@[i]).body.wf()
}

/// The coverage of lines of text.
fn build_mask(w: u32, h: u32, rows: &[Row], off: u32) -> (m: Mask)
    requires
        w * h <= u32::MAX,
        2 * off <= w,
        rows_wf(rows@),
    ensures
        m.wf(),
        m.w == w,
        m.h == h,
        m@ == text_cover(w as int, h as int, rows@, off as int, rows@.len() as int),
{
    let mut m = Mask::new(w, h);
    let inner: u32 = w - 2 * off;
    let mut r: usize = 0;
    while r < rows.len()
        invariant
            r <= rows@.len(),
            rows_wf(rows@),
            m.wf(),
            m.w == w,
            m.h == h,
            inner == w - 2 * off,
            m@ == text_cover(w as int, h as int, rows@, off as int, r as int),
        decreases rows@.len() - r,
    {
        let run = rows[r].run;
        let dx: i64 = (if inner > run.width {
            (inner - run.width) / 2
        } else {
            0
        }) as i64 + off as i64;
        let ghost base = m@;
        let mut i: usize = 0;
        while i < run.glyphs.len()
            invariant
                r < rows@.len(),
                rows_wf(rows@),
                *run == *rows@[r as int].run,
                i <= run.glyphs@.len(),
                0 <= dx <= 0x2_0000_0000,
                m.wf(),
                m.w == w,
                m.h == h,
                m@ == with_glyphs(base, run.glyphs@, dx as int, off as int, i as int),
            decreases run.glyphs@.len() - i,
        {
            assert(rows@[r as int].run.glyphs@[i as int].body.wf());
            m.raise_glyph(&run.glyphs[i], dx, off as i64);
            i = i + 1;
        }
        r = r + 1;
    }
    m
}

/// How much wider the coverage is on each side than the canvas.
pub open spec fn pad_of(effect: Effect, scale: int) -> int {
    match effect {
        Effect::Plain => 0,
        Effect::Retro => 2 * scale,
        Effect::Glow => 4 * scale,
        Effect::Neon => 4 * scale,
        Effect::Glass => 3 * scale,
        Effect::Holographic => 5 * scale,
        Effect::Liquid => 3 * scale,
        Effect::Aqua => 4 * scale,
    }
}

/// How much wider the coverage is on each side than the canvas.
pub fn effect_pad(effect: Effect, scale: u32) -> (r: u32)
    requires
        pad_of(effect, scale as int) <= u32::MAX,
    ensures
        r == pad_of(effect, scale as int),
{
    match effect {
        Effect::Plain => 0,
        Effect::Retro => 2 * scale,
        Effect::Glow => 4 * scale,
        Effect::Neon => 4 * scale,
        Effect::Glass => 3 * scale,
        Effect::Holographic => 5 * scale,
        Effect::Liquid => 3 * scale,
        Effect::Aqua => 4 * scale,
    }
}

// ---- the effects ----

/// What a layer is laid over: a canvas, and how much wider the coverage is.
pub ghost struct Sheet {
    pub w: u32,
    pub h: u32,
    pub pad: int,
}

impl Sheet {
    /// A layer over the canvas.
    pub open spec fn over(self, buf: Seq<u32>, m: mask::Cover, colors: Seq<u32>, gain: int) -> Seq<u32> {
        laid(buf, self.w as int, self.h as int, m, self.pad, colors, gain, false)
    }

    /// A layer added to the canvas.
    pub open spec fn plus(self, buf: Seq<u32>, m: mask::Cover, colors: Seq<u32>, gain: int) -> Seq<u32> {
        laid(buf, self.w as int, self.h as int, m, self.pad, colors, gain, true)
    }

    /// A hard shadow to the lower right, and the text.
    pub open spec fn retro(self, buf: Seq<u32>, m: mask::Cover, colors: Seq<u32>, shadow: u32, s: int) -> Seq<u32> {
        let under = self.over(buf, m.shift(s, s).scale(150, 255), flat(shadow, self.w), 255);
        self.over(under, m, colors, 255)
    }

    /// A wide halo, a narrow one, and the text.
    pub open spec fn glow(self, buf: Seq<u32>, m: mask::Cover, colors: Seq<u32>, s: int) -> Seq<u32> {
        let wide = self.plus(buf, m.blur(2 * s), colors, 220);
        let narrow = self.plus(wide, m.blur(s), colors, 150);
        self.over(narrow, m, colors, 255)
    }

    /// A faint halo, the outline as a tube of light with a white core, and the outline.
    pub open spec fn neon(self, buf: Seq<u32>, m: mask::Cover, colors: Seq<u32>, s: int) -> Seq<u32> {
        let rim = m.above(m.erode(s));
        let tube = rim.blur(s);
        let halo = self.plus(buf, m.blur(2 * s), colors, 55);
        let lit = self.plus(halo, tube, colors, 200);
        let white = self.plus(lit, bright(tube), flat(0xff_ffff, self.w), 255);
        self.over(white, rim, colors, 255)
    }

    /// A soft shadow, the text lighter at its top, and light on its edges.
    pub open spec fn glass(self, buf: Seq<u32>, m: mask::Cover, colors: Seq<u32>, s: int) -> Seq<u32> {
        let shadow = self.over(buf, m.blur(s).shift(s, s), flat(0, self.w), 150);
        let body = self.over(shadow, sheen(m), colors, 255);
        let upper = self.plus(body, m.above(m.shift(s, s)).scale(40, 255), flat(0xff_ffff, self.w), 255);
        self.plus(upper, m.above(m.shift(-s, -s)).scale(16, 255), flat(0xff_ffff, self.w), 255)
    }

    /// A red, a green and a blue halo side by side, the steepest edges in white, and the text.
    pub open spec fn holographic(self, buf: Seq<u32>, m: mask::Cover, colors: Seq<u32>, s: int) -> Seq<u32> {
        let soft = m.blur(s).blur(s);
        let red = self.plus(buf, soft.shift(s, 0), flat(0xff3030, self.w), 170);
        let green = self.plus(red, soft, flat(0x30ff60, self.w), 170);
        let blue = self.plus(green, soft.shift(-s, 0), flat(0x4060ff, self.w), 170);
        let rim = self.plus(blue, steep(soft, s), flat(0xff_ffff, self.w), 255);
        self.over(rim, m, colors, 235)
    }

    /// The blurred text moved by waves, and light on its slopes.
    pub open spec fn liquid(self, buf: Seq<u32>, m: mask::Cover, colors: Seq<u32>, s: int, phase_ms: int) -> Seq<u32> {
        let high = m.blur(s);
        let body = self.over(buf, waves(high, phase_ms * 256 / 2513, s), colors, 255);
        self.plus(body, high.above(high.shift(1, 0)).scale(90, 255), flat(0xff_ffff, self.w), 255)
    }

    /// The text moved by noise, over its halo.
    pub open spec fn aqua(self, buf: Seq<u32>, m: mask::Cover, colors: Seq<u32>, s: int, phase_ms: int) -> Seq<u32> {
        let bent = ripples(m, s, phase_ms);
        let halo = self.plus(buf, bent.blur(s).shift(s, s).scale(90, 255), colors, 255);
        self.over(halo, bent, colors, 255)
    }

    /// The text with an effect.
    #[verifier::opaque]
    pub open spec fn with_effect(
        self,
        buf: Seq<u32>,
        m: mask::Cover,
        colors: Seq<u32>,
        shadow: u32,
        s: int,
        effect: Effect,
        phase_ms: int,
    ) -> Seq<u32> {
        match effect {
            Effect::Plain => self.over(buf, m, colors, 255),
            Effect::Retro => self.retro(buf, m, colors, shadow, s),
            Effect::Glow => self.glow(buf, m, colors, s),
            Effect::Neon => self.neon(buf, m, colors, s),
            Effect::Glass => self.glass(buf, m, colors, s),
            Effect::Holographic => self.holographic(buf, m, colors, s),
            Effect::Liquid => self.liquid(buf, m, colors, s, phase_ms),
            Effect::Aqua => self.aqua(buf, m, colors, s, phase_ms),
        }
    }
}

/// Where the coverage is above 190, four times what it is above.
pub open spec fn bright(tube: mask::Cover) -> mask::Cover {
    mask::Cover {
        px: tube.px.map_values(
            |v: u8|
                if v > 190 {
                    render::limited((v - 190) * 4, 0, 255) as u8
                } else {
                    0
                },
        ),
        ..tube
    }
}

/// Three quarters of the coverage, and more at the top than at the bottom.
pub open spec fn sheen(m: mask::Cover) -> mask::Cover {
    mask::Cover::new(
        m.w,
        m.h,
        |x: int, y: int|
            if m.cell(x, y) == 0 {
                0u8
            } else {
                render::limited(m.cell(x, y) * 3 / 4 + (255 - y * 255 / m.h) / 8, 0, 255) as u8
            },
    )
}

pub open spec fn distance(a: int, b: int) -> int {
    if a > b {
        a - b
    } else {
        b - a
    }
}

/// How steep the coverage is around a pixel, squared so that only the steepest stays.
pub open spec fn steep_at(soft: mask::Cover, d: int, x: int, y: int) -> u8 {
    let across = distance(soft.near(x + d, y) as int, soft.near(x - d, y) as int);
    let down = distance(soft.near(x, y + d) as int, soft.near(x, y - d) as int);
    let v = (across + down) * 85 / 255;
    render::limited(v * v / 255, 0, 200) as u8
}

/// How steep the coverage is around each pixel.
pub open spec fn steep(soft: mask::Cover, d: int) -> mask::Cover {
    mask::Cover::new(soft.w, soft.h, |x: int, y: int| steep_at(soft, d, x, y))
}

/// The quotient, rounded toward zero.
pub open spec fn quotient(a: int, b: int) -> int {
    if a < 0 {
        -((-a) / b)
    } else {
        a / b
    }
}

/// A wave at a step, up to `amp` high.
pub open spec fn wave(step: int, amp: int) -> int {
    quotient(sine::value(step % 256) * amp, 1024)
}

/// The coverage that three waves move to a pixel; what is faint fades out.
pub open spec fn wave_at(high: mask::Cover, t: int, amp: int, x: int, y: int) -> u8 {
    let down = y * 222 / 256;
    let a = 2 * x + t;
    let b = wave(x / 2 + down + t + 85, amp);
    let c = wave(-(x / 2) + down + t + 170, amp);
    let v = high.near(
        x + quotient(wave(a, amp) + b, 2),
        y + quotient(wave(a + 62, amp) + b - c, 2),
    );
    if v < 24 {
        0
    } else {
        render::limited((v - 24) * 8, 0, 255) as u8
    }
}

/// The coverage moved by waves.
pub open spec fn waves(high: mask::Cover, t: int, amp: int) -> mask::Cover {
    mask::Cover::new(high.w, high.h, |x: int, y: int| wave_at(high, t, amp, x, y))
}

/// A number up to 255 that looks like chance, for each point of a lattice.
pub open spec fn noise(x: u32, y: u32, seed: u32) -> u8 {
    let sum = ((x * 374_761_393 + y * 668_265_263 + seed * 2_246_822_519) % 0x1_0000_0000) as u32;
    let h = ((sum ^ (sum >> 13)) * 1_274_126_177 % 0x1_0000_0000) as u32;
    ((h ^ (h >> 16)) & 0xff) as u8
}

/// Where a pixel is on the lattice: the point before it, and how far it is from there to the next,
/// up to 255.
pub open spec fn lattice_point(x: nat, step: nat) -> (nat, nat) {
    let one = ONE as nat;
    let f = single::rounded(single::rounded(x, 1) * one, single::rounded(step, 1));
    (f / one, single::rounded(f % one * 255, 1) / one)
}

/// The noise at a pixel, between that of the four points around it.
pub open spec fn noise_at(x: nat, y: nat, step: nat, seed: u32) -> int {
    let (x0, tx) = lattice_point(x, step);
    let (y0, ty) = lattice_point(y, step);
    let a = noise(x0 as u32, y0 as u32, seed) * (255 - tx) / 255 + noise((x0 + 1) as u32, y0 as u32, seed)
        * tx / 255;
    let b = noise(x0 as u32, (y0 + 1) as u32, seed) * (255 - tx) / 255 + noise(
        (x0 + 1) as u32,
        (y0 + 1) as u32,
        seed,
    ) * tx / 255;
    (a * (255 - ty) + b * ty) / 255
}

/// The distance between two points of the lattice.
pub open spec fn lattice_step(s: int) -> nat {
    (if 4 * s < 8 {
        8
    } else {
        4 * s
    }) as nat
}

/// Which noise it is at a time: another one every fourteen seconds.
pub open spec fn noise_seed(phase_ms: int) -> u32 {
    (phase_ms / 14000 * 7) as u32
}

/// The coverage that noise moves to a pixel.
pub open spec fn ripple_at(m: mask::Cover, s: int, phase_ms: int, x: int, y: int) -> u8 {
    let step = lattice_step(s);
    let seed = noise_seed(phase_ms);
    m.near(
        x + quotient((noise_at(x as nat, y as nat, step, seed) - 128) * s, 128),
        y + quotient((noise_at((x + 1) as nat, (y + 1) as nat, step, seed) - 128) * s, 128),
    )
}

/// The coverage moved by noise.
pub open spec fn ripples(m: mask::Cover, s: int, phase_ms: int) -> mask::Cover {
    mask::Cover::new(m.w, m.h, |x: int, y: int| ripple_at(m, s, phase_ms, x, y))
}

/// Where the coverage is above 190, four times what it is above.
fn bright_parts(tube: &Mask) -> (m: Mask)
    requires
        tube.wf(),
    ensures
        m.wf(),
        m@ == bright(tube@),
{
    let n: usize = tube.px.len();
    let mut px: Vec<u8> = Vec::new();
    while px.len() < n
        invariant
            n == tube.px@.len(),
            px@.len() <= n,
            forall|j: int| 0 <= j < px@.len() ==> px@[j] == bright(tube@).px[j],
        decreases n - px@.len(),
    {
        let v: u8 = tube.px[px.len()];
        px.push(
            if v > 190 {
                let over: u32 = (v as u32 - 190) * 4;
                if over > 255 {
                    255
                } else {
                    over as u8
                }
            } else {
                0
            },
        );
    }
    assert(px@ =~= bright(tube@).px);
    Mask { w: tube.w, h: tube.h, px }
}

/// Three quarters of the coverage, and more at the top than at the bottom.
fn sheen_parts(m: &Mask) -> (r: Mask)
    requires
        m.wf(),
    ensures
        r.wf(),
        r@ == sheen(m@),
{
    let n: usize = m.px.len();
    let mut px: Vec<u8> = Vec::new();
    while px.len() < n
        invariant
            m.wf(),
            n == m.px@.len(),
            px@.len() <= n,
            forall|j: int| 0 <= j < px@.len() ==> px@[j] == sheen(m@).px[j],
        decreases n - px@.len(),
    {
        let (x, y): (u32, u32) = place_of(px.len(), m.w, m.h);
        let v: u8 = m.get(x, y);
        let far: u64 = y as u64 * 255 / m.h as u64;
        assert(0 <= far <= 255) by (nonlinear_arith)
            requires
                far == y * 255 / m.h as int,
                0 <= y < m.h,
        ;
        let a: u32 = v as u32 * 3 / 4 + (255 - far as u32) / 8;
        px.push(
            if v == 0 {
                0
            } else if a > 255 {
                255
            } else {
                a as u8
            },
        );
    }
    assert(px@ =~= sheen(m@).px);
    Mask { w: m.w, h: m.h, px }
}

fn far_apart(a: u8, b: u8) -> (r: u32)
    ensures
        r == distance(a as int, b as int),
        r <= 255,
{
    if a > b {
        a as u32 - b as u32
    } else {
        b as u32 - a as u32
    }
}

/// How steep the coverage is around each pixel.
fn steep_parts(soft: &Mask, d: u32) -> (m: Mask)
    requires
        soft.wf(),
    ensures
        m.wf(),
        m@ == steep(soft@, d as int),
{
    let n: usize = soft.px.len();
    let mut px: Vec<u8> = Vec::new();
    while px.len() < n
        invariant
            soft.wf(),
            n == soft.px@.len(),
            px@.len() <= n,
            forall|j: int|
                0 <= j < px@.len() ==> px@[j] == steep_at(
                    soft@,
                    d as int,
                    j % soft.w as int,
                    j / soft.w as int,
                ),
        decreases n - px@.len(),
    {
        let (x, y): (u32, u32) = place_of(px.len(), soft.w, soft.h);
        let (x, y): (i64, i64) = (x as i64, y as i64);
        let across: u32 = far_apart(soft.clamped(x + d as i64, y), soft.clamped(x - d as i64, y));
        let down: u32 = far_apart(soft.clamped(x, y + d as i64), soft.clamped(x, y - d as i64));
        let v: u32 = (across + down) * 85 / 255;
        assert(0 <= v * v <= 28_900) by (nonlinear_arith)
            requires
                0 <= v <= 170,
        ;
        let q: u32 = v * v / 255;
        px.push(
            if q > 200 {
                200
            } else {
                q as u8
            },
        );
    }
    assert(px@ =~= steep(soft@, d as int).px);
    Mask { w: soft.w, h: soft.h, px }
}

/// The quotient, rounded toward zero.
fn divided(a: i64, b: i64) -> (r: i64)
    requires
        b > 0,
        a > i64::MIN,
    ensures
        r == quotient(a as int, b as int),
{
    if a < 0 {
        -((-a) / b)
    } else {
        a / b
    }
}

/// A wave at a step, up to `amp` high.
fn wave_height(step: i64, amp: u32) -> (r: i64)
    requires
        -0x100_0000_0000 <= step <= 0x100_0000_0000,
    ensures
        r == wave(step as int, amp as int),
        -amp <= r <= amp,
{
    let i: usize = ((step + 0x100_0000_0000) % 256) as usize;
    assert(i == step as int % 256);
    let v: i64 = height(i as u8) as i64;
    let a: i64 = amp as i64;
    assert(-1024 * a <= v * a <= 1024 * a) by (nonlinear_arith)
        requires
            -1024 <= v <= 1024,
            0 <= a,
    ;
    divided(v * a, 1024)
}

/// The coverage moved by waves.
fn wave_parts(high: &Mask, t: u32, amp: u32) -> (m: Mask)
    requires
        high.wf(),
    ensures
        m.wf(),
        m@ == waves(high@, t as int, amp as int),
{
    let n: usize = high.px.len();
    let mut px: Vec<u8> = Vec::new();
    while px.len() < n
        invariant
            high.wf(),
            n == high.px@.len(),
            px@.len() <= n,
            forall|j: int|
                0 <= j < px@.len() ==> px@[j] == wave_at(
                    high@,
                    t as int,
                    amp as int,
                    j % high.w as int,
                    j / high.w as int,
                ),
        decreases n - px@.len(),
    {
        let (x, y): (u32, u32) = place_of(px.len(), high.w, high.h);
        let (x, y): (i64, i64) = (x as i64, y as i64);
        let t: i64 = t as i64;
        let down: i64 = y * 222 / 256;
        let first: i64 = 2 * x + t;
        let a: i64 = wave_height(first, amp);
        let b: i64 = wave_height(x / 2 + down + t + 85, amp);
        let c: i64 = wave_height(-(x / 2) + down + t + 170, amp);
        let d: i64 = wave_height(first + 62, amp);
        let v: u8 = high.clamped(x + divided(a + b, 2), y + divided(d + b - c, 2));
        let strong: u32 = if v < 24 {
            0
        } else {
            (v as u32 - 24) * 8
        };
        px.push(
            if strong > 255 {
                255
            } else {
                strong as u8
            },
        );
    }
    assert(px@ =~= waves(high@, t as int, amp as int).px);
    Mask { w: high.w, h: high.h, px }
}

/// A number up to 255 that looks like chance.
fn value_noise(x: u32, y: u32, seed: u32) -> (r: u8)
    ensures
        r == noise(x, y, seed),
{
    let total: u64 = x as u64 * 374_761_393 + y as u64 * 668_265_263 + seed as u64 * 2_246_822_519;
    let sum: u32 = (total % 0x1_0000_0000) as u32;
    let h: u32 = ((sum ^ (sum >> 13)) as u64 * 1_274_126_177 % 0x1_0000_0000) as u32;
    ((h ^ (h >> 16)) & 0xff) as u8
}

/// Where the pixels up to `n` are on the lattice.
fn lattice(n: u32, step: u32) -> (r: Vec<(u32, u32)>)
    requires
        8 <= step,
        n < u32::MAX,
    ensures
        r@.len() == n + 1,
        forall|i: int|
            0 <= i <= n ==> {
                &&& (#[trigger] r@[i]).0 == lattice_point(i as nat, step as nat).0
                &&& r@[i].1 == lattice_point(i as nat, step as nat).1
                &&& r@[i].0 < u32::MAX
                &&& r@[i].1 <= 255
            },
{
    let den: u128 = round(step as u128, 1);
    proof {
        single::law_rounding_is_small(step as nat);
    }
    let mut out: Vec<(u32, u32)> = Vec::new();
    let mut i: u32 = 0;
    while i <= n
        invariant
            i <= n + 1,
            n < u32::MAX,
            out@.len() == i,
            den == single::rounded(step as nat, 1),
            8 <= den <= 0x2_0000_0000,
            forall|k: int|
                0 <= k < i ==> {
                    &&& (#[trigger] out@[k]).0 == lattice_point(k as nat, step as nat).0
                    &&& out@[k].1 == lattice_point(k as nat, step as nat).1
                    &&& out@[k].0 < u32::MAX
                    &&& out@[k].1 <= 255
                },
        decreases n + 1 - i,
    {
        let num: u128 = round(i as u128, 1);
        proof {
            single::law_rounding_is_small(i as nat);
        }
        let f: u128 = round(num * ONE, den);
        assert(num * ONE / (den as int) <= 0x3000_0000 * ONE) by (nonlinear_arith)
            requires
                0 <= num <= 0x1_8000_0000,
                8 <= den,
        ;
        let part: u128 = round(f % ONE * 255, 1);
        proof {
            single::law_rounding_is_small((f % ONE * 255) as nat);
        }
        out.push(((f / ONE) as u32, (part / ONE) as u32));
        i = i + 1;
    }
    out
}

/// `a * (255 - t) / 255 + b * t / 255`.
fn between(a: u8, b: u8, t: u32) -> (r: u32)
    requires
        t <= 255,
    ensures
        r == a * (255 - t) / 255 + b * t / 255,
        r <= 255,
{
    let (a, b): (u32, u32) = (a as u32, b as u32);
    let s: u32 = 255 - t;
    assert(0 <= a * s <= 255 * s && 0 <= b * t <= 255 * t) by (nonlinear_arith)
        requires
            0 <= a <= 255,
            0 <= b <= 255,
            0 <= s,
            0 <= t,
    ;
    a * s / 255 + b * t / 255
}

/// The noise at a pixel, between that of the four points around it.
fn noise_between(px: (u32, u32), py: (u32, u32), seed: u32) -> (r: u32)
    requires
        px.0 < u32::MAX,
        py.0 < u32::MAX,
        px.1 <= 255,
        py.1 <= 255,
    ensures
        r <= 255,
        forall|x: nat, y: nat, step: nat|
            lattice_point(x, step) == (px.0 as nat, px.1 as nat) && lattice_point(y, step) == (
                py.0 as nat,
                py.1 as nat,
            ) ==> r == #[trigger] noise_at(x, y, step, seed),
{
    let (x0, tx): (u32, u32) = px;
    let (y0, ty): (u32, u32) = py;
    let a: u32 = between(value_noise(x0, y0, seed), value_noise(x0 + 1, y0, seed), tx);
    let b: u32 = between(value_noise(x0, y0 + 1, seed), value_noise(x0 + 1, y0 + 1, seed), tx);
    let s: u32 = 255 - ty;
    assert(0 <= a * s <= 255 * s && 0 <= b * ty <= 255 * ty) by (nonlinear_arith)
        requires
            0 <= a <= 255,
            0 <= b <= 255,
            0 <= s,
            0 <= ty,
    ;
    (a * s + b * ty) / 255
}

/// How far noise moves a pixel.
fn drift(n: u32, scale: u32) -> (r: i64)
    requires
        n <= 255,
    ensures
        r == quotient((n - 128) * scale, 128),
        -0x1_0000_0000 <= r <= 0x1_0000_0000,
{
    let d: i64 = n as i64 - 128;
    let s: i64 = scale as i64;
    assert(-128 * s <= d * s <= 128 * s) by (nonlinear_arith)
        requires
            -128 <= d <= 128,
            0 <= s,
    ;
    divided(d * s, 128)
}

/// The coverage moved by noise.
fn ripple_parts(m: &Mask, scale: u32, phase_ms: u32) -> (r: Mask)
    requires
        m.wf(),
        m.w < u32::MAX,
        m.h < u32::MAX,
        4 * scale <= u32::MAX,
    ensures
        r.wf(),
        r@ == ripples(m@, scale as int, phase_ms as int),
{
    let step: u32 = if 4 * scale < 8 {
        8
    } else {
        4 * scale
    };
    let seed: u32 = phase_ms / 14000 * 7;
    let xs = lattice(m.w, step);
    let ys = lattice(m.h, step);
    let n: usize = m.px.len();
    let mut px: Vec<u8> = Vec::new();
    while px.len() < n
        invariant
            m.wf(),
            n == m.px@.len(),
            px@.len() <= n,
            step == lattice_step(scale as int),
            seed == noise_seed(phase_ms as int),
            xs@.len() == m.w + 1,
            ys@.len() == m.h + 1,
            forall|i: int|
                0 <= i <= m.w ==> {
                    &&& (#[trigger] xs@[i]).0 == lattice_point(i as nat, step as nat).0
                    &&& xs@[i].1 == lattice_point(i as nat, step as nat).1
                    &&& xs@[i].0 < u32::MAX
                    &&& xs@[i].1 <= 255
                },
            forall|i: int|
                0 <= i <= m.h ==> {
                    &&& (#[trigger] ys@[i]).0 == lattice_point(i as nat, step as nat).0
                    &&& ys@[i].1 == lattice_point(i as nat, step as nat).1
                    &&& ys@[i].0 < u32::MAX
                    &&& ys@[i].1 <= 255
                },
            forall|j: int|
                0 <= j < px@.len() ==> px@[j] == ripple_at(
                    m@,
                    scale as int,
                    phase_ms as int,
                    j % m.w as int,
                    j / m.w as int,
                ),
        decreases n - px@.len(),
    {
        let (x, y): (u32, u32) = place_of(px.len(), m.w, m.h);
        let (xu, yu): (usize, usize) = (x as usize, y as usize);
        let a: u32 = noise_between(xs[xu], ys[yu], seed);
        let b: u32 = noise_between(xs[xu + 1], ys[yu + 1], seed);
        assert(a == noise_at(x as nat, y as nat, step as nat, seed));
        assert(b == noise_at((x + 1) as nat, (y + 1) as nat, step as nat, seed));
        px.push(m.clamped(x as i64 + drift(a, scale), y as i64 + drift(b, scale)));
    }
    assert(px@ =~= ripples(m@, scale as int, phase_ms as int).px);
    Mask { w: m.w, h: m.h, px }
}

/// A hard shadow to the lower right, and the text.
fn retro(canvas: &mut Canvas, m: &Mask, pad: u32, colors: &[u32], scale: u32, shadow: u32)
    requires
        old(canvas).wf(),
        m.wf(),
        colors@.len() == old(canvas).width,
    ensures
        final(canvas).buf@ == (Sheet { w: old(canvas).width, h: old(canvas).height, pad: pad as int }).retro(old(canvas).buf@, m@, colors@, shadow, scale as int),
        final(canvas).width == old(canvas).width,
        final(canvas).height == old(canvas).height,
        final(final(canvas).buf)@ == final(old(canvas).buf)@,
{
    let dark = flat_colors(shadow, canvas.width);
    let moved = m.shifted(scale as i64, scale as i64).gain(150, 255);
    layer(canvas, &moved, pad, &dark, 255, false);
    layer(canvas, m, pad, colors, 255, false);
}

/// A wide halo, a narrow one, and the text.
fn glow(canvas: &mut Canvas, m: &Mask, pad: u32, colors: &[u32], scale: u32)
    requires
        old(canvas).wf(),
        m.wf(),
        colors@.len() == old(canvas).width,
        2 * scale <= u32::MAX,
    ensures
        final(canvas).buf@ == (Sheet { w: old(canvas).width, h: old(canvas).height, pad: pad as int }).glow(old(canvas).buf@, m@, colors@, scale as int),
        final(canvas).width == old(canvas).width,
        final(canvas).height == old(canvas).height,
        final(final(canvas).buf)@ == final(old(canvas).buf)@,
{
    layer(canvas, &m.blurred(2 * scale), pad, colors, 220, true);
    layer(canvas, &m.blurred(scale), pad, colors, 150, true);
    layer(canvas, m, pad, colors, 255, false);
}

/// The outline as a tube of light.
fn neon(canvas: &mut Canvas, m: &Mask, pad: u32, colors: &[u32], scale: u32)
    requires
        old(canvas).wf(),
        m.wf(),
        colors@.len() == old(canvas).width,
        2 * scale <= u32::MAX,
    ensures
        final(canvas).buf@ == (Sheet { w: old(canvas).width, h: old(canvas).height, pad: pad as int }).neon(old(canvas).buf@, m@, colors@, scale as int),
        final(canvas).width == old(canvas).width,
        final(canvas).height == old(canvas).height,
        final(final(canvas).buf)@ == final(old(canvas).buf)@,
{
    let rim = m.subtract(&m.eroded(scale));
    let tube = rim.blurred(scale);
    let white = flat_colors(0xff_ffff, canvas.width);
    layer(canvas, &m.blurred(2 * scale), pad, colors, 55, true);
    layer(canvas, &tube, pad, colors, 200, true);
    layer(canvas, &bright_parts(&tube), pad, &white, 255, true);
    layer(canvas, &rim, pad, colors, 255, false);
}

/// A soft shadow, the text lighter at its top, and light on its edges.
fn glass(canvas: &mut Canvas, m: &Mask, pad: u32, colors: &[u32], scale: u32)
    requires
        old(canvas).wf(),
        m.wf(),
        colors@.len() == old(canvas).width,
    ensures
        final(canvas).buf@ == (Sheet { w: old(canvas).width, h: old(canvas).height, pad: pad as int }).glass(old(canvas).buf@, m@, colors@, scale as int),
        final(canvas).width == old(canvas).width,
        final(canvas).height == old(canvas).height,
        final(final(canvas).buf)@ == final(old(canvas).buf)@,
{
    let s: i64 = scale as i64;
    let black = flat_colors(0, canvas.width);
    let white = flat_colors(0xff_ffff, canvas.width);
    let upper = m.subtract(&m.shifted(s, s)).gain(40, 255);
    let lower = m.subtract(&m.shifted(-s, -s)).gain(16, 255);
    layer(canvas, &m.blurred(scale).shifted(s, s), pad, &black, 150, false);
    layer(canvas, &sheen_parts(m), pad, colors, 255, false);
    layer(canvas, &upper, pad, &white, 255, true);
    layer(canvas, &lower, pad, &white, 255, true);
}

/// A red, a green and a blue halo, the steepest edges in white, and the text.
fn holographic(canvas: &mut Canvas, m: &Mask, pad: u32, colors: &[u32], scale: u32)
    requires
        old(canvas).wf(),
        m.wf(),
        colors@.len() == old(canvas).width,
    ensures
        final(canvas).buf@ == (Sheet { w: old(canvas).width, h: old(canvas).height, pad: pad as int }).holographic(old(canvas).buf@, m@, colors@, scale as int),
        final(canvas).width == old(canvas).width,
        final(canvas).height == old(canvas).height,
        final(final(canvas).buf)@ == final(old(canvas).buf)@,
{
    let s: i64 = scale as i64;
    let soft = m.blurred(scale).blurred(scale);
    let red = flat_colors(0xff3030, canvas.width);
    let green = flat_colors(0x30ff60, canvas.width);
    let blue = flat_colors(0x4060ff, canvas.width);
    let white = flat_colors(0xff_ffff, canvas.width);
    layer(canvas, &soft.shifted(s, 0), pad, &red, 170, true);
    layer(canvas, &soft, pad, &green, 170, true);
    layer(canvas, &soft.shifted(-s, 0), pad, &blue, 170, true);
    layer(canvas, &steep_parts(&soft, scale), pad, &white, 255, true);
    layer(canvas, m, pad, colors, 235, false);
}

/// The blurred text moved by waves, and light on its slopes.
fn liquid(canvas: &mut Canvas, m: &Mask, pad: u32, colors: &[u32], scale: u32, phase_ms: u32)
    requires
        old(canvas).wf(),
        m.wf(),
        colors@.len() == old(canvas).width,
    ensures
        final(canvas).buf@ == (Sheet { w: old(canvas).width, h: old(canvas).height, pad: pad as int }).liquid(old(canvas).buf@, m@, colors@, scale as int, phase_ms as int),
        final(canvas).width == old(canvas).width,
        final(canvas).height == old(canvas).height,
        final(final(canvas).buf)@ == final(old(canvas).buf)@,
{
    let high = m.blurred(scale);
    let t: u32 = (phase_ms as u64 * 256 / 2513) as u32;
    let white = flat_colors(0xff_ffff, canvas.width);
    let slopes = high.subtract(&high.shifted(1, 0)).gain(90, 255);
    layer(canvas, &wave_parts(&high, t, scale), pad, colors, 255, false);
    layer(canvas, &slopes, pad, &white, 255, true);
}

/// The text moved by noise, over its halo.
fn aqua(canvas: &mut Canvas, m: &Mask, pad: u32, colors: &[u32], scale: u32, phase_ms: u32)
    requires
        old(canvas).wf(),
        m.wf(),
        colors@.len() == old(canvas).width,
        m.w < u32::MAX,
        m.h < u32::MAX,
        4 * scale <= u32::MAX,
    ensures
        final(canvas).buf@ == (Sheet { w: old(canvas).width, h: old(canvas).height, pad: pad as int }).aqua(old(canvas).buf@, m@, colors@, scale as int, phase_ms as int),
        final(canvas).width == old(canvas).width,
        final(canvas).height == old(canvas).height,
        final(final(canvas).buf)@ == final(old(canvas).buf)@,
{
    let bent = ripple_parts(m, scale, phase_ms);
    let halo = bent.blurred(scale).shifted(scale as i64, scale as i64).gain(90, 255);
    layer(canvas, &halo, pad, colors, 255, true);
    layer(canvas, &bent, pad, colors, 255, false);
}

/// The text with an effect.
fn put_effect(
    canvas: &mut Canvas,
    m: &Mask,
    pad: u32,
    colors: &[u32],
    shadow: u32,
    scale: u32,
    effect: Effect,
    phase_ms: u32,
)
    requires
        old(canvas).wf(),
        m.wf(),
        colors@.len() == old(canvas).width,
        m.w < u32::MAX,
        m.h < u32::MAX,
        pad == pad_of(effect, scale as int),
    ensures
        final(canvas).buf@ == (Sheet {
            w: old(canvas).width,
            h: old(canvas).height,
            pad: pad as int,
        }).with_effect(
            old(canvas).buf@,
            m@,
            colors@,
            shadow,
            scale as int,
            effect,
            phase_ms as int,
        ),
        final(canvas).buf@.len() == old(canvas).buf@.len(),
        final(canvas).width == old(canvas).width,
        final(canvas).height == old(canvas).height,
        final(final(canvas).buf)@ == final(old(canvas).buf)@,
{
    reveal(Sheet::with_effect);
    match effect {
        Effect::Plain => layer(canvas, m, pad, colors, 255, false),
        Effect::Retro => retro(canvas, m, pad, colors, scale, shadow),
        Effect::Glow => glow(canvas, m, pad, colors, scale),
        Effect::Neon => neon(canvas, m, pad, colors, scale),
        Effect::Glass => glass(canvas, m, pad, colors, scale),
        Effect::Holographic => holographic(canvas, m, pad, colors, scale),
        Effect::Liquid => liquid(canvas, m, pad, colors, scale, phase_ms),
        Effect::Aqua => aqua(canvas, m, pad, colors, scale, phase_ms),
    }
}

/// The largest scale of the first `n` lines, at least one.
pub open spec fn largest_scale(rows: Seq<Row>, n: int) -> int
    decreases n,
{
    if n <= 0 {
        1
    } else {
        let before = largest_scale(rows, n - 1);
        if rows[n - 1].scale > before {
            rows[n - 1].scale as int
        } else {
            before
        }
    }
}

/// The first `n` lines in one color, each in the middle.
pub open spec fn plain_rows(buf: Seq<u32>, w: int, h: int, rows: Seq<Row>, color: u32, n: int) -> Seq<u32>
    decreases n,
{
    if n <= 0 {
        buf
    } else {
        let run = *rows[n - 1].run;
        render::under_glyphs(
            plain_rows(buf, w, h, rows, color, n - 1),
            w,
            h,
            run.glyphs@,
            indent(w, run),
            color,
            run.glyphs@.len() as int,
        )
    }
}

/// The color of the shadow: the last of several colors, and of a single one white behind a dark and
/// black behind a light.
pub open spec fn shadow_color(stops: Seq<u32>) -> u32 {
    if stops.len() > 1 {
        stops.last()
    } else {
        let c = stops[0];
        let luma = (render::channel(c, 16) * 299 + render::channel(c, 8) * 587 + render::channel(c, 0)
            * 114) / 1000;
        if luma < 120 {
            0xff_ffff
        } else {
            0
        }
    }
}

/// A canvas after lines of text are drawn on it with an effect.
pub open spec fn drawn(
    buf: Seq<u32>,
    w: u32,
    h: u32,
    rows: Seq<Row>,
    stops: Seq<u32>,
    effect: Effect,
    phase_ms: u32,
) -> Seq<u32> {
    let n = rows.len() as int;
    if w == 0 || h == 0 {
        buf
    } else if effect == Effect::Plain && stops.len() == 1 {
        plain_rows(buf, w as int, h as int, rows, render::premultiplied(stops[0], 255) as u32, n)
    } else {
        let s = largest_scale(rows, n);
        let pad = pad_of(effect, s);
        let m = text_cover(w + 2 * pad, h + 2 * pad, rows, pad, n);
        let colors = columns(stops, w, phase_ms);
        let sheet = Sheet { w, h, pad };
        sheet.with_effect(buf, m, colors, shadow_color(stops), s, effect, phase_ms as int)
    }
}

/// Whether the coverage of an effect on a canvas fits in its numbers.
pub open spec fn effect_fits(w: u32, h: u32, rows: Seq<Row>, effect: Effect) -> bool {
    let pad = pad_of(effect, largest_scale(rows, rows.len() as int));
    w + 2 * pad < u32::MAX && h + 2 * pad < u32::MAX && (w + 2 * pad) * (h + 2 * pad) <= u32::MAX
}

pub(crate) proof fn lemma_largest_scale(rows: Seq<Row>, n: int)
    ensures
        1 <= largest_scale(rows, n),
    decreases n,
{
    if n > 0 {
        lemma_largest_scale(rows, n - 1);
    }
}

/// The color of the shadow.
fn shadow_of(grad: &Gradient) -> (r: u32)
    requires
        grad.wf(),
    ensures
        r == shadow_color(grad.stops@),
{
    if grad.is_gradient() {
        return grad.tail();
    }
    let c: u32 = grad.stops[0];
    assert((c >> 16) & 0xff <= 255 && (c >> 8) & 0xff <= 255 && (c >> 0) & 0xff <= 255) by (bit_vector);
    let luma: u32 = (((c >> 16) & 0xff) * 299 + ((c >> 8) & 0xff) * 587 + ((c >> 0) & 0xff) * 114) / 1000;
    if luma < 120 {
        0xff_ffff
    } else {
        0
    }
}

/// Draws lines of text with an effect, `phase_ms` after the start.
pub fn draw(canvas: &mut Canvas, rows: &[Row], grad: &Gradient, effect: Effect, phase_ms: u32)
    requires
        old(canvas).wf(),
        grad.wf(),
        rows_wf(rows@),
        old(canvas).width > 0 && old(canvas).height > 0 ==> effect_fits(
            old(canvas).width,
            old(canvas).height,
            rows@,
            effect,
        ),
    ensures
        final(canvas).buf@ == drawn(
            old(canvas).buf@,
            old(canvas).width,
            old(canvas).height,
            rows@,
            grad.stops@,
            effect,
            phase_ms,
        ),
        final(canvas).buf@.len() == old(canvas).buf@.len(),
        final(canvas).width == old(canvas).width,
        final(canvas).height == old(canvas).height,
        final(final(canvas).buf)@ == final(old(canvas).buf)@,
{
    let (w, h): (u32, u32) = canvas.size();
    if w == 0 || h == 0 {
        return;
    }
    if effect == Effect::Plain && !grad.is_gradient() {
        let color: u32 = premultiply(grad.stops[0], 255);
        let ghost before = canvas.buf@;
        let mut i: usize = 0;
        while i < rows.len()
            invariant
                i <= rows@.len(),
                rows_wf(rows@),
                canvas.wf(),
                canvas.width == w,
                canvas.height == h,
                w == old(canvas).width,
                h == old(canvas).height,
                canvas.buf@ == plain_rows(before, w as int, h as int, rows@, color, i as int),
                canvas.buf@.len() == old(canvas).buf@.len(),
                final(canvas.buf)@ == final(old(canvas).buf)@,
            decreases rows@.len() - i,
        {
            let run = rows[i].run;
            assert forall|k: int| 0 <= k < run.glyphs@.len() implies (
            #[trigger] run.glyphs@[k]).body.wf() by {
                assert(rows@[i as int].run.glyphs@[k].body.wf());
            }
            canvas.draw_run_centered(run, color);
            i = i + 1;
        }
        return;
    }
    let mut scale: u32 = 1;
    let mut i: usize = 0;
    while i < rows.len()
        invariant
            i <= rows@.len(),
            scale == largest_scale(rows@, i as int),
        decreases rows@.len() - i,
    {
        if rows[i].scale > scale {
            scale = rows[i].scale;
        }
        i = i + 1;
    }
    proof {
        lemma_largest_scale(rows@, rows@.len() as int);
    }
    let pad: u32 = effect_pad(effect, scale);
    let m = build_mask(w + 2 * pad, h + 2 * pad, rows, pad);
    let colors = column_colors(grad, w, phase_ms);
    let shadow: u32 = shadow_of(grad);
    put_effect(canvas, &m, pad, &colors, shadow, scale, effect, phase_ms);
}

/// What a glyph covers moves with it.
proof fn lemma_moved_glyph(a: mask::Cover, b: mask::Cover, g: Glyph, dx: int, pad: int, x: int, y: int)
    requires
        0 <= pad,
        0 <= x < a.w,
        0 <= y < a.h,
        b.w == a.w + 2 * pad,
        b.h == a.h + 2 * pad,
        b.cell(x + pad, y + pad) == a.cell(x, y),
    ensures
        b.with_glyph(g, dx + pad, pad).cell(x + pad, y + pad) == a.with_glyph(g, dx, 0).cell(x, y),
{
    render::lemma_place(x, y, a.w, a.h);
    render::lemma_place(x + pad, y + pad, b.w, b.h);
    assert((x + pad) - g.x - (dx + pad) == x - g.x - dx);
    assert((y + pad) - g.y - pad == y - g.y - 0);
}

proof fn lemma_moved_glyphs(
    a: mask::Cover,
    b: mask::Cover,
    glyphs: Seq<Glyph>,
    dx: int,
    pad: int,
    n: int,
    x: int,
    y: int,
)
    requires
        0 <= pad,
        0 <= x < a.w,
        0 <= y < a.h,
        b.w == a.w + 2 * pad,
        b.h == a.h + 2 * pad,
        b.cell(x + pad, y + pad) == a.cell(x, y),
    ensures
        with_glyphs(a, glyphs, dx, 0, n).w == a.w,
        with_glyphs(a, glyphs, dx, 0, n).h == a.h,
        with_glyphs(b, glyphs, dx + pad, pad, n).w == b.w,
        with_glyphs(b, glyphs, dx + pad, pad, n).h == b.h,
        with_glyphs(b, glyphs, dx + pad, pad, n).cell(x + pad, y + pad) == with_glyphs(
            a,
            glyphs,
            dx,
            0,
            n,
        ).cell(x, y),
    decreases n,
{
    if n > 0 {
        lemma_moved_glyphs(a, b, glyphs, dx, pad, n - 1, x, y);
        lemma_moved_glyph(
            with_glyphs(a, glyphs, dx, 0, n - 1),
            with_glyphs(b, glyphs, dx + pad, pad, n - 1),
            glyphs[n - 1],
            dx,
            pad,
            x,
            y,
        );
    }
}

/// The margin that an effect needs does not move the text: it stands in the middle of the canvas,
/// where it stands without an effect.
pub proof fn law_margin_keeps_the_middle(
    w: int,
    h: int,
    rows: Seq<Row>,
    pad: int,
    n: int,
    x: int,
    y: int,
)
    requires
        0 <= pad,
        0 <= n <= rows.len(),
        0 <= x < w,
        0 <= y < h,
    ensures
        text_cover(w, h, rows, 0, n).w == w,
        text_cover(w, h, rows, 0, n).h == h,
        text_cover(w + 2 * pad, h + 2 * pad, rows, pad, n).w == w + 2 * pad,
        text_cover(w + 2 * pad, h + 2 * pad, rows, pad, n).h == h + 2 * pad,
        text_cover(w + 2 * pad, h + 2 * pad, rows, pad, n).cell(x + pad, y + pad) == text_cover(
            w,
            h,
            rows,
            0,
            n,
        ).cell(x, y),
    decreases n,
{
    if n > 0 {
        law_margin_keeps_the_middle(w, h, rows, pad, n - 1, x, y);
        let run = *rows[n - 1].run;
        assert(w + 2 * pad - 2 * pad == w - 2 * 0);
        lemma_moved_glyphs(
            text_cover(w, h, rows, 0, n - 1),
            text_cover(w + 2 * pad, h + 2 * pad, rows, pad, n - 1),
            run.glyphs@,
            indent(w, run),
            pad,
            run.glyphs@.len() as int,
            x,
            y,
        );
    } else {
        render::lemma_place(x, y, w, h);
        render::lemma_place(x + pad, y + pad, w + 2 * pad, h + 2 * pad);
    }
}

/// Whether a canvas holds the color where there is coverage, all of it, and is unchanged elsewhere.
pub open spec fn same_footprint(now: Seq<u32>, before: Seq<u32>, w: int, h: int, c: mask::Cover, color: u32) -> bool {
    &&& c.w == w
    &&& c.h == h
    &&& now.len() == before.len()
    &&& forall|x: int, y: int|
        0 <= x < w && 0 <= y < h ==> {
            &&& #[trigger] c.cell(x, y) == 0 || c.cell(x, y) == 255
            &&& now[y * w + x] == if c.cell(x, y) == 255 {
                color
            } else {
                before[y * w + x]
            }
        }
}

proof fn lemma_footprint_glyph(
    now: Seq<u32>,
    before: Seq<u32>,
    w: int,
    h: int,
    c: mask::Cover,
    color: u32,
    g: Glyph,
    dx: int,
)
    requires
        0 <= w * h <= before.len(),
        same_footprint(now, before, w, h, c, color),
        g.body is Bits,
    ensures
        same_footprint(
            render::under_glyph(now, w, h, g, dx, color),
            before,
            w,
            h,
            c.with_glyph(g, dx, 0),
            color,
        ),
{
    let after = render::under_glyph(now, w, h, g, dx, color);
    let d = c.with_glyph(g, dx, 0);
    assert forall|x: int, y: int| 0 <= x < w && 0 <= y < h implies {
        &&& #[trigger] d.cell(x, y) == 0 || d.cell(x, y) == 255
        &&& after[y * w + x] == if d.cell(x, y) == 255 {
            color
        } else {
            before[y * w + x]
        }
    } by {
        render::lemma_place(x, y, w, h);
        let had = c.cell(x, y);
        assert(had == 0 || had == 255);
        assert(d.cell(x, y) == mask::greater(had, mask::glyph_cover(g, x - g.x - dx, y - g.y - 0)));
        assert(after[y * w + x] == render::glyph_pixel(g, dx, color, x, y, now[y * w + x]));
    }
}

proof fn lemma_footprint_glyphs(
    now: Seq<u32>,
    before: Seq<u32>,
    w: int,
    h: int,
    c: mask::Cover,
    color: u32,
    glyphs: Seq<Glyph>,
    dx: int,
    n: int,
)
    requires
        0 <= w * h <= before.len(),
        same_footprint(now, before, w, h, c, color),
        0 <= n <= glyphs.len(),
        forall|i: int| 0 <= i < glyphs.len() ==> (#[trigger] glyphs[i]).body is Bits,
    ensures
        same_footprint(
            render::under_glyphs(now, w, h, glyphs, dx, color, n),
            before,
            w,
            h,
            with_glyphs(c, glyphs, dx, 0, n),
            color,
        ),
    decreases n,
{
    if n > 0 {
        lemma_footprint_glyphs(now, before, w, h, c, color, glyphs, dx, n - 1);
        assert(glyphs[n - 1].body is Bits);
        lemma_footprint_glyph(
            render::under_glyphs(now, w, h, glyphs, dx, color, n - 1),
            before,
            w,
            h,
            with_glyphs(c, glyphs, dx, 0, n - 1),
            color,
            glyphs[n - 1],
            dx,
        );
    }
}

/// Text in bitmaps covers the same pixels whether it is drawn at once or through its coverage.
pub proof fn law_paths_agree_on_footprint(
    buf: Seq<u32>,
    w: int,
    h: int,
    rows: Seq<Row>,
    color: u32,
    n: int,
)
    requires
        0 <= w,
        0 <= h,
        w * h <= buf.len(),
        0 <= n <= rows.len(),
        forall|r: int, i: int|
            0 <= r < rows.len() && 0 <= i < rows[r].run.glyphs@.len() ==> (
            #[trigger] rows[r].run.glyphs@[i]).body is Bits,
    ensures
        same_footprint(
            plain_rows(buf, w, h, rows, color, n),
            buf,
            w,
            h,
            text_cover(w, h, rows, 0, n),
            color,
        ),
    decreases n,
{
    assert(0 <= w * h) by (nonlinear_arith)
        requires
            0 <= w,
            0 <= h,
    ;
    if n > 0 {
        law_paths_agree_on_footprint(buf, w, h, rows, color, n - 1);
        let run = *rows[n - 1].run;
        assert forall|i: int| 0 <= i < run.glyphs@.len() implies (
        #[trigger] run.glyphs@[i]).body is Bits by {
            assert(rows[n - 1].run.glyphs@[i].body is Bits);
        }
        lemma_footprint_glyphs(
            plain_rows(buf, w, h, rows, color, n - 1),
            buf,
            w,
            h,
            text_cover(w, h, rows, 0, n - 1),
            color,
            run.glyphs@,
            indent(w, run),
            run.glyphs@.len() as int,
        );
    } else {
        let none = mask::Cover::new(w, h, |x: int, y: int| 0u8);
        assert forall|x: int, y: int| 0 <= x < w && 0 <= y < h implies #[trigger] none.cell(x, y) == 0 by {
            render::lemma_place(x, y, w, h);
        }
    }
}

/// What lies behind the rows of the canvas is left as it is.
proof fn lemma_behind(buf: Seq<u32>, w: int, h: int, glyphs: Seq<Glyph>, dx: int, color: u32, n: int)
    ensures
        render::under_glyphs(buf, w, h, glyphs, dx, color, n).len() == buf.len(),
        forall|j: int|
            0 <= j < buf.len() && w * h <= j ==> #[trigger] render::under_glyphs(
                buf,
                w,
                h,
                glyphs,
                dx,
                color,
                n,
            )[j] == buf[j],
    decreases n,
{
    if n > 0 {
        lemma_behind(buf, w, h, glyphs, dx, color, n - 1);
    }
}

proof fn lemma_behind_rows(buf: Seq<u32>, w: int, h: int, rows: Seq<Row>, color: u32, n: int)
    ensures
        plain_rows(buf, w, h, rows, color, n).len() == buf.len(),
        forall|j: int|
            0 <= j < buf.len() && w * h <= j ==> #[trigger] plain_rows(buf, w, h, rows, color, n)[j]
                == buf[j],
    decreases n,
{
    if n > 0 {
        lemma_behind_rows(buf, w, h, rows, color, n - 1);
        let run = *rows[n - 1].run;
        lemma_behind(
            plain_rows(buf, w, h, rows, color, n - 1),
            w,
            h,
            run.glyphs@,
            indent(w, run),
            color,
            run.glyphs@.len() as int,
        );
    }
}

/// Between a component and itself there is only that component.
proof fn lemma_mix_same(c: u32, shift: u32, t: nat)
    requires
        shift == 0 || shift == 8 || shift == 16,
    ensures
        mix_part(c, c, shift, t) == render::channel(c, shift),
{
    let one = ONE as nat;
    let x = render::channel(c, shift);
    assert((c >> shift) & 0xff <= 255) by (bit_vector);
    assert(0 * t == 0);
    single::law_small_is_exact(0);
    single::law_rounding_is_small((x * one) as nat);
}

/// Two equal colors are that color at every column.
proof fn lemma_equal_stops(c: u32, x: int, width: u32, phase_ms: u32)
    requires
        c <= 0xff_ffff,
    ensures
        color_at(seq![c, c], x, width, phase_ms) == c,
{
    let stops = seq![c, c];
    let one = ONE as nat;
    let u = along(x, width, false, phase_ms);
    let f = single::rounded((u * 1) as nat, 1);
    let f = if f > one {
        one
    } else {
        f
    };
    let t = share(f as int);
    lemma_mix_same(c, 16, t);
    lemma_mix_same(c, 8, t);
    lemma_mix_same(c, 0, t);
    render::law_premultiply(c);
    assert(color_at(stops, x, width, phase_ms) == mixture(c, c, t));
    assert(c <= 0xff_ffff ==> ((c >> 16) & 0xff) * 0x1_0000 + ((c >> 8) & 0xff) * 0x100 + ((c >> 0)
        & 0xff) == c) by (bit_vector);
}

/// Text in bitmaps looks the same in one color as in two that are equal, although the one is drawn
/// at once and the other through its coverage. Where the canvas has no pixels, nothing is written,
/// whatever the colors and the effect.
pub proof fn law_equal_colors_draw_alike(
    buf: Seq<u32>,
    w: u32,
    h: u32,
    rows: Seq<Row>,
    c: u32,
    phase_ms: u32,
)
    requires
        w * h <= buf.len(),
        c <= 0xff_ffff,
        forall|r: int, i: int|
            0 <= r < rows.len() && 0 <= i < rows[r].run.glyphs@.len() ==> (
            #[trigger] rows[r].run.glyphs@[i]).body is Bits,
    ensures
        drawn(buf, w, h, rows, seq![c], Effect::Plain, phase_ms) == drawn(
            buf,
            w,
            h,
            rows,
            seq![c, c],
            Effect::Plain,
            phase_ms,
        ),
        w == 0 || h == 0 ==> forall|stops: Seq<u32>, effect: Effect|
            #[trigger] drawn(buf, w, h, rows, stops, effect, phase_ms) == buf,
{
    if w > 0 && h > 0 {
        let n = rows.len() as int;
        let (wi, hi) = (w as int, h as int);
        let color = render::premultiplied(c, 255) as u32;
        let stops = seq![c, c];
        let flat_one = drawn(buf, w, h, rows, seq![c], Effect::Plain, phase_ms);
        let covered = drawn(buf, w, h, rows, stops, Effect::Plain, phase_ms);
        let m = text_cover(wi, hi, rows, 0, n);
        let colors = columns(stops, w, phase_ms);
        law_paths_agree_on_footprint(buf, wi, hi, rows, color, n);
        lemma_behind_rows(buf, wi, hi, rows, color, n);
        render::law_premultiply(c);
        let ink = (0xff00_0000 + c) as u32;
        assert(c <= 0xff_ffff && ink == 0xff00_0000 + c ==> (ink >> 24) & 0xff == 255)
            by (bit_vector);
        assert((0u32 >> 24) & 0xff == 0) by (bit_vector);
        assert(flat_one == plain_rows(buf, wi, hi, rows, color, n));
        assert(covered == laid(buf, wi, hi, m, 0, colors, 255, false)) by {
            reveal(Sheet::with_effect);
            assert(wi + 2 * 0 == wi && hi + 2 * 0 == hi);
        }
        assert forall|j: int| 0 <= j < buf.len() implies #[trigger] flat_one[j] == covered[j] by {
            if j < wi * hi {
                render::lemma_row_col(j, wi, hi);
                let (x, y) = (j % wi, j / wi);
                lemma_equal_stops(c, x, w, phase_ms);
                assert(colors[x] == c);
                let had = m.cell(x, y);
                assert(had == 0 || had == 255);
                assert(m.cell(x + 0, y + 0) == had);
                assert((had * 255 / 255) as u8 == had);
            }
        }
        assert(flat_one =~= covered);
    }
}

} // verus!
