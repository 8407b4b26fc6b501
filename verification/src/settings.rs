//! The configuration as text, and that what is written is what is read again.
use crate::anim;
use crate::config;
use crate::config::{Config, Font, Key, Settings};
use crate::effect;
use crate::lang;
use crate::parse;
use crate::render;
use crate::render::push_hex;
use crate::strings;
use crate::strings::{push_int, push_number};
use crate::timer;
use crate::tray;
use vstd::prelude::*;

verus! {

/// The first line of the file.
pub open spec fn heading() -> Seq<char> {
    "# tinyticker 配置（手动编辑后即时生效，见 README「配置」一节）"@
}

/// The order of the keys in the file.
pub const ORDER: [Key; 37] = [
    Key::Duration,
    Key::Presets,
    Key::Mode,
    Key::BgAlpha,
    Key::Zoom,
    Key::ClickThrough,
    Key::Clock12h,
    Key::ClockSeconds,
    Key::TimePad,
    Key::Centiseconds,
    Key::TrayIcon,
    Key::TrayThrottle,
    Key::TrayGifSpeed,
    Key::TrayGif,
    Key::PomoWork,
    Key::PomoBreak,
    Key::PomoLongBreak,
    Key::PomoRounds,
    Key::PomoCycles,
    Key::PomoSeq,
    Key::OnFinish,
    Key::TimeoutText,
    Key::Notify,
    Key::NotifyText,
    Key::AlarmSound,
    Key::AlarmVolume,
    Key::TextSource,
    Key::TextFont,
    Key::StatusFontPx,
    Key::Language,
    Key::ColorBg,
    Key::ColorRunning,
    Key::ColorPaused,
    Key::ColorDone,
    Key::TextEffect,
    Key::WindowX,
    Key::WindowY,
];

pub open spec fn switch_text(on: bool) -> Seq<char> {
    if on {
        "true"@
    } else {
        "false"@
    }
}

/// The first `n` numbers, with a comma and a space between them.
pub open spec fn list_text(list: Seq<u32>, n: int) -> Seq<char>
    decreases n,
{
    if n <= 0 {
        Seq::empty()
    } else if n == 1 {
        strings::digits(list[0] as nat)
    } else {
        list_text(list, n - 1).push(',').push(' ') + strings::digits(list[n - 1] as nat)
    }
}

/// The value that is written for a key, if it is written; `zoom` is that of the zoom.
pub open spec fn value(s: Settings, zoom: Seq<char>, key: Key) -> Option<Seq<char>> {
    match key {
        Key::Duration => Some(strings::digits(s.duration as nat)),
        Key::Presets => Some(list_text(s.presets, s.presets.len() as int)),
        Key::Mode => Some(s.mode.text()),
        Key::BgAlpha => Some(strings::digits(s.bg_alpha as nat)),
        Key::Zoom => Some(zoom),
        Key::ClickThrough => Some(switch_text(s.click_through)),
        Key::Clock12h => Some(switch_text(s.clock_12h)),
        Key::ClockSeconds => Some(switch_text(s.clock_seconds)),
        Key::TimePad => Some(s.pad.text()),
        Key::Centiseconds => Some(switch_text(s.centiseconds)),
        Key::TrayIcon => Some(s.tray_icon.text()),
        Key::TrayGif => s.tray_gif,
        Key::PomoWork => Some(strings::digits(s.work as nat)),
        Key::PomoBreak => Some(strings::digits(s.short_break as nat)),
        Key::PomoLongBreak => Some(strings::digits(s.long_break as nat)),
        Key::PomoRounds => Some(strings::digits(s.rounds as nat)),
        Key::PomoCycles => Some(strings::digits(s.cycles as nat)),
        Key::PomoSeq => if s.steps.len() == 0 {
            None
        } else {
            Some(list_text(s.steps, s.steps.len() as int))
        },
        Key::OnFinish => s.on_finish,
        Key::TimeoutText => s.timeout_text,
        Key::Notify => Some(switch_text(s.notify)),
        Key::NotifyText => s.notify_text,
        Key::AlarmSound => s.alarm_sound,
        Key::AlarmVolume => Some(strings::digits(s.alarm_volume as nat)),
        Key::TextSource => s.text_source,
        Key::TextFont => Some(s.text_font.text()),
        Key::TrayThrottle => Some(s.throttle.text()),
        Key::TrayGifSpeed => Some(strings::digits(s.gif_speed as nat)),
        Key::StatusFontPx => Some(strings::digits(s.font_px as nat)),
        Key::Language => Some(s.language.text()),
        Key::ColorBg => Some(render::hex_text((s.color_bg & 0xff_ffff) as nat, 6)),
        Key::ColorRunning => Some(effect::gradient_text(s.running)),
        Key::ColorPaused => Some(effect::gradient_text(s.paused)),
        Key::ColorDone => Some(effect::gradient_text(s.done)),
        Key::TextEffect => Some(s.effect.text()),
        Key::WindowX => match s.place {
            Some((x, y)) => Some(strings::int_text(x as int)),
            None => None,
        },
        Key::WindowY => match s.place {
            Some((x, y)) => Some(strings::int_text(y as int)),
            None => None,
        },
    }
}

/// The line of a key and its value.
pub open spec fn line_text(key: Key, value: Seq<char>) -> Seq<char> {
    key.text() + seq![' ', '=', ' '] + value
}

/// The file up to the first `n` keys, without the end of its last line.
pub open spec fn text_upto(s: Settings, zoom: Seq<char>, n: int) -> Seq<char>
    decreases n,
{
    if n <= 0 {
        heading()
    } else {
        match value(s, zoom, ORDER@[n - 1]) {
            Some(v) => text_upto(s, zoom, n - 1).push('\n') + line_text(ORDER@[n - 1], v),
            None => text_upto(s, zoom, n - 1),
        }
    }
}

/// The file of a configuration.
pub open spec fn saved(s: Settings, zoom: Seq<char>) -> Seq<char> {
    text_upto(s, zoom, 37).push('\n')
}

/// The text of a string that may be there.
fn copied(s: &Option<String>) -> (r: Option<String>)
    ensures
        config::text_of(r) == config::text_of(*s),
{
    match s {
        Some(t) => Some(config::copy_of(t)),
        None => None,
    }
}

fn number_text(n: u32) -> (r: String)
    ensures
        r@ == strings::digits(n as nat),
{
    let mut out = String::new();
    push_number(&mut out, n as u64);
    assert(out@ =~= strings::digits(n as nat));
    out
}

fn coordinate_text(n: i32) -> (r: String)
    ensures
        r@ == strings::int_text(n as int),
{
    let mut out = String::new();
    push_int(&mut out, n as i64);
    assert(out@ =~= strings::int_text(n as int));
    out
}

fn switch(on: bool) -> (r: String)
    ensures
        r@ == switch_text(on),
{
    if on {
        String::from_str("true")
    } else {
        String::from_str("false")
    }
}

fn list(v: &Vec<u32>) -> (r: String)
    ensures
        r@ == list_text(v@, v@.len() as int),
{
    let mut out = String::new();
    let mut i: usize = 0;
    assert(out@ =~= Seq::<char>::empty());
    while i < v.len()
        invariant
            i <= v@.len(),
            out@ == list_text(v@, i as int),
        decreases v@.len() - i,
    {
        let ghost before = out@;
        if i > 0 {
            out.push(',');
            out.push(' ');
        }
        push_number(&mut out, v[i] as u64);
        assert(i == 0 ==> out@ =~= strings::digits(v@[0] as nat));
        i = i + 1;
    }
    out
}

impl Config {
    /// The value that is written for a key, if it is written.
    fn value(&self, key: Key, zoom: &str) -> (r: Option<String>)
        ensures
            config::text_of(r) == value(self@, zoom@, key),
    {
        match key {
            Key::Duration => Some(number_text(self.duration_secs)),
            Key::Presets => Some(list(&self.presets)),
            Key::Mode => Some(String::from_str(self.mode.name())),
            Key::BgAlpha => Some(number_text(self.bg_alpha as u32)),
            Key::Zoom => Some(String::from_str(zoom)),
            Key::ClickThrough => Some(switch(self.click_through)),
            Key::Clock12h => Some(switch(self.clock_12h)),
            Key::ClockSeconds => Some(switch(self.clock_seconds)),
            Key::TimePad => Some(String::from_str(self.time_pad.name())),
            Key::Centiseconds => Some(switch(self.centiseconds)),
            Key::TrayIcon => Some(String::from_str(self.tray_icon.name())),
            Key::TrayGif => copied(&self.tray_gif),
            Key::PomoWork => Some(number_text(self.pomo.work)),
            Key::PomoBreak => Some(number_text(self.pomo.short_break)),
            Key::PomoLongBreak => Some(number_text(self.pomo.long_break)),
            Key::PomoRounds => Some(number_text(self.pomo.rounds)),
            Key::PomoCycles => Some(number_text(self.pomo.cycles)),
            Key::PomoSeq => if self.pomo.seq.len() == 0 {
                None
            } else {
                Some(list(&self.pomo.seq))
            },
            Key::OnFinish => copied(&self.on_finish),
            Key::TimeoutText => copied(&self.timeout_text),
            Key::Notify => Some(switch(self.notify)),
            Key::NotifyText => copied(&self.notify_text),
            Key::AlarmSound => copied(&self.alarm_sound),
            Key::AlarmVolume => Some(number_text(self.alarm_volume as u32)),
            Key::TextSource => copied(&self.text_source),
            Key::TextFont => Some(self.text_font.to_value()),
            Key::TrayThrottle => Some(String::from_str(self.tray_throttle.name())),
            Key::TrayGifSpeed => Some(number_text(self.tray_gif_speed)),
            Key::StatusFontPx => Some(number_text(self.status_font_px)),
            Key::Language => Some(String::from_str(self.language.name())),
            Key::ColorBg => {
                let mut out = String::new();
                push_hex(&mut out, self.color_bg & 0xff_ffff, 6);
                assert(out@ =~= render::hex_text((self.color_bg & 0xff_ffff) as nat, 6));
                Some(out)
            },
            Key::ColorRunning => Some(self.color_running.to_config_string()),
            Key::ColorPaused => Some(self.color_paused.to_config_string()),
            Key::ColorDone => Some(self.color_done.to_config_string()),
            Key::TextEffect => Some(String::from_str(self.text_effect.name())),
            Key::WindowX => match self.window_pos {
                Some((x, _)) => Some(coordinate_text(x)),
                None => None,
            },
            Key::WindowY => match self.window_pos {
                Some((_, y)) => Some(coordinate_text(y)),
                None => None,
            },
        }
    }

    /// The file of this configuration; `zoom` is what is written for the zoom.
    pub fn serialize(&self, zoom: &str) -> (r: String)
        ensures
            r@ == saved(self@, zoom@),
    {
        let mut out = String::from_str(
            "# tinyticker 配置（手动编辑后即时生效，见 README「配置」一节）",
        );
        let mut i: usize = 0;
        while i < 37
            invariant
                i <= 37,
                out@ == text_upto(self@, zoom@, i as int),
            decreases 37 - i,
        {
            if let Some(v) = self.value(ORDER[i], zoom) {
                let ghost before = out@;
                out.push('\n');
                out.append(ORDER[i].name());
                out.push(' ');
                out.push('=');
                out.push(' ');
                out.append(v.as_str());
                assert(out@ =~= before.push('\n') + line_text(ORDER@[i as int], v@));
            }
            i = i + 1;
        }
        out.push('\n');
        out
    }
}

// ---- reading back ----

/// Whether a text can stand as a value: it is not empty, holds no end of a line, and neither begins
/// nor ends in white space.
pub open spec fn writable(v: Seq<char>) -> bool {
    &&& v.len() > 0
    &&& !strings::is_space(v[0])
    &&& !strings::is_space(v.last())
    &&& strings::free_of(v, seq!['\n'])
}

pub open spec fn writable_if_any(v: Option<Seq<char>>) -> bool {
    match v {
        Some(t) => writable(t),
        None => true,
    }
}

pub open spec fn writable_colors(stops: Seq<u32>) -> bool {
    &&& 1 <= stops.len() <= effect::MAX_STOPS
    &&& forall|i: int| 0 <= i < stops.len() ==> #[trigger] stops[i] <= 0xff_ffff
}

pub open spec fn writable_list(list: Seq<u32>, max: int) -> bool {
    &&& list.len() <= max
    &&& forall|i: int| 0 <= i < list.len() ==> 0 < #[trigger] list[i] <= config::MAX_SPAN
}

/// Whether everything is within its limits, and so is read back as it was written.
pub open spec fn wf(s: Settings) -> bool {
    &&& s.color_bg <= 0xff_ffff
    &&& writable_colors(s.running)
    &&& writable_colors(s.paused)
    &&& writable_colors(s.done)
    &&& s.presets.len() >= 1
    &&& writable_list(s.presets, config::MAX_PRESETS as int)
    &&& 1 <= s.work <= config::MAX_SPAN
    &&& 1 <= s.short_break <= config::MAX_SPAN
    &&& s.long_break <= config::MAX_SPAN
    &&& 1 <= s.rounds <= config::MAX_ROUNDS
    &&& s.cycles <= config::MAX_ROUNDS
    &&& writable_list(s.steps, timer::MAX_POMO_STEPS as int)
    &&& writable_if_any(s.tray_gif)
    &&& writable_if_any(s.on_finish)
    &&& writable_if_any(s.timeout_text)
    &&& writable_if_any(s.notify_text)
    &&& writable_if_any(s.alarm_sound)
    &&& s.alarm_volume <= 100
    &&& writable_if_any(s.text_source)
    &&& config::MIN_GIF_SPEED <= s.gif_speed <= config::MAX_GIF_SPEED
    &&& config::MIN_FONT_PX <= s.font_px <= config::MAX_FONT_PX
    &&& match s.text_font {
        Font::Path(p) => writable(p) && p != "auto"@ && p != "off"@ && p != "none"@,
        _ => true,
    }
}

/// Text of printable ASCII characters can stand as a value.
proof fn lemma_printable(v: Seq<char>)
    requires
        v.len() > 0,
        forall|i: int| 0 <= i < v.len() ==> '!' <= #[trigger] v[i] <= '~',
    ensures
        writable(v),
{
    assert forall|i: int| 0 <= i < v.len() implies !seq!['\n'].contains(#[trigger] v[i]) by {
        assert('!' <= v[i] <= '~');
    }
    assert('!' <= v[0] <= '~');
    assert('!' <= v[v.len() - 1] <= '~');
}

proof fn lemma_digits_writable(n: nat)
    ensures
        writable(strings::digits(n)),
        parse::duration(strings::digits(n)) == (if n <= u32::MAX {
            Some(n as u32)
        } else {
            parse::duration(strings::digits(n))
        }),
        strings::unsigned(strings::digits(n)) == Some(n),
{
    let v = strings::digits(n);
    strings::lemma_digits(n);
    strings::law_number_roundtrip(n);
    if n <= u32::MAX {
        parse::law_bare_number_is_seconds(n as u32);
    }
    assert forall|i: int| 0 <= i < v.len() implies '!' <= #[trigger] v[i] <= '~' by {
        assert(strings::is_digit(v[i]));
    }
    lemma_printable(v);
}

proof fn lemma_int_writable(n: int)
    requires
        i32::MIN <= n <= i32::MAX,
    ensures
        writable(strings::int_text(n)),
        config::coordinate(strings::int_text(n)) == Some(n as i32),
{
    strings::law_int_roundtrip(n);
    let m = (if n < 0 {
        -n
    } else {
        n
    }) as nat;
    let d = strings::digits(m);
    strings::lemma_digits(m);
    let v = strings::int_text(n);
    assert forall|i: int| 0 <= i < v.len() implies '!' <= #[trigger] v[i] <= '~' by {
        if n < 0 {
            if i > 0 {
                assert(v[i] == d[i - 1]);
                assert(strings::is_digit(d[i - 1]));
            }
        } else {
            assert(strings::is_digit(v[i]));
        }
    }
    lemma_printable(v);
}

proof fn lemma_switch(on: bool)
    ensures
        writable(switch_text(on)),
        config::is_yes(switch_text(on)) == on,
{
    reveal_strlit("true");
    reveal_strlit("false");
    reveal_strlit("1");
    reveal_strlit("yes");
    reveal_strlit("on");
    lemma_printable(switch_text(on));
    assert(strings::lowered(switch_text(true)) =~= "true"@);
    assert(strings::lowered(switch_text(false)) =~= "false"@);
    assert("false"@.len() == 5 && "true"@.len() == 4 && "1"@.len() == 1 && "yes"@.len() == 3 && "on"@.len()
        == 2);
}

proof fn lemma_names_writable(s: Settings)
    ensures
        writable(s.mode.text()),
        writable(s.pad.text()),
        writable(s.tray_icon.text()),
        writable(s.effect.text()),
        writable(s.language.text()),
        writable(s.throttle.text()),
        anim::throttle_named(s.throttle.text()) == Some(s.throttle),
        lang::named(s.language.text()) == Some(s.language),
        timer::mode_named(s.mode.text()) == Some(s.mode),
        render::pad_named(s.pad.text()) == Some(s.pad),
        tray::icon_named(s.tray_icon.text()) == Some(s.tray_icon),
        effect::effect_named(s.effect.text()) == Some(s.effect),
{
    timer::law_mode_names_roundtrip(s.mode);
    render::law_pad_names_roundtrip(s.pad);
    tray::law_icon_names_roundtrip(s.tray_icon);
    effect::law_effect_names_roundtrip(s.effect);
    lang::law_language_names_roundtrip(s.language);
    anim::law_throttle_names_roundtrip(s.throttle);
    reveal_strlit("off");
    reveal_strlit("timer");
    reveal_strlit("fixed");
    reveal_strlit("auto");
    reveal_strlit("zh");
    reveal_strlit("en");
    reveal_strlit("countdown");
    reveal_strlit("stopwatch");
    reveal_strlit("pomodoro");
    reveal_strlit("clock");
    reveal_strlit("none");
    reveal_strlit("zero");
    reveal_strlit("full");
    reveal_strlit("cpu");
    reveal_strlit("memory");
    reveal_strlit("battery");
    reveal_strlit("gif");
    reveal_strlit("glow");
    reveal_strlit("glass");
    reveal_strlit("neon");
    reveal_strlit("holographic");
    reveal_strlit("liquid");
    reveal_strlit("aqua");
    reveal_strlit("retro");
    lemma_printable(s.mode.text());
    lemma_printable(s.pad.text());
    lemma_printable(s.tray_icon.text());
    lemma_printable(s.effect.text());
    lemma_printable(s.language.text());
    lemma_printable(s.throttle.text());
}

proof fn lemma_font(f: Font)
    requires
        match f {
            Font::Path(p) => writable(p) && p != "auto"@ && p != "off"@ && p != "none"@,
            _ => true,
        },
    ensures
        writable(f.text()),
        config::font_named(f.text()) == f,
{
    reveal_strlit("auto");
    reveal_strlit("off");
    match f {
        Font::Auto => lemma_printable("auto"@),
        Font::Off => {
            lemma_printable("off"@);
            assert("auto"@.len() == 4 && "off"@.len() == 3);
        },
        Font::Path(p) => {},
    }
}

proof fn lemma_hex_printable(h: Seq<char>)
    requires
        render::plain_hex(h),
    ensures
        forall|i: int| 0 <= i < h.len() ==> '!' <= #[trigger] h[i] <= '~',
{
    assert forall|i: int| 0 <= i < h.len() implies '!' <= #[trigger] h[i] <= '~' by {
        assert('0' <= h[i] <= '9' || 'a' <= h[i] <= 'f');
    }
}

proof fn lemma_background(c: u32)
    requires
        c <= 0xff_ffff,
    ensures
        writable(render::hex_text((c & 0xff_ffff) as nat, 6)),
        render::color(render::hex_text((c & 0xff_ffff) as nat, 6)) == Some(c),
{
    assert(c & 0xff_ffff == c) by (bit_vector)
        requires
            c <= 0xff_ffff,
    ;
    render::law_color_roundtrip(c);
    lemma_hex_printable(render::hex_text(c as nat, 6));
    lemma_printable(render::hex_text(c as nat, 6));
}

proof fn lemma_joined_printable(parts: Seq<Seq<char>>)
    requires
        forall|p: int, i: int|
            0 <= p < parts.len() && 0 <= i < parts[p].len() ==> '!' <= #[trigger] parts[p][i] <= '~',
    ensures
        forall|i: int| 0 <= i < strings::joined(parts, '_').len() ==> '!' <= #[trigger] strings::joined(parts, '_')[i] <= '~',
        parts.len() > 0 && parts[0].len() > 0 ==> strings::joined(parts, '_').len() > 0,
    decreases parts.len(),
{
    let all = strings::joined(parts, '_');
    if parts.len() == 1 {
        assert forall|i: int| 0 <= i < all.len() implies '!' <= #[trigger] all[i] <= '~' by {
            assert('!' <= parts[0][i] <= '~');
        }
    } else if parts.len() > 1 {
        let front = parts.drop_last();
        assert forall|p: int, i: int| 0 <= p < front.len() && 0 <= i < front[p].len() implies '!'
            <= #[trigger] front[p][i] <= '~' by {
            assert('!' <= parts[p][i] <= '~');
        }
        lemma_joined_printable(front);
        let before = strings::joined(front, '_');
        assert forall|i: int| 0 <= i < all.len() implies '!' <= #[trigger] all[i] <= '~' by {
            if i < before.len() {
                assert(all[i] == before[i]);
            } else if i > before.len() {
                let last = parts.len() - 1;
                assert(all[i] == parts[last][i - before.len() - 1]);
            }
        }
    }
}

proof fn lemma_colors(stops: Seq<u32>)
    requires
        writable_colors(stops),
    ensures
        writable(effect::gradient_text(stops)),
        effect::gradient(effect::gradient_text(stops)) == Some(stops),
{
    effect::law_gradient_roundtrip(stops);
    assert(stops[0] <= 0xff_ffff);
    if stops.len() == 1 {
        lemma_background(stops[0]);
    } else {
        let parts = stops.map_values(|c: u32| effect::stop_text(c));
        assert forall|p: int, i: int| 0 <= p < parts.len() && 0 <= i < parts[p].len() implies '!'
            <= #[trigger] parts[p][i] <= '~' by {
            assert(stops[p] <= 0xff_ffff);
            render::law_color_roundtrip(stops[p]);
            let h = render::hex_text(stops[p] as nat, 6);
            lemma_hex_printable(h);
            if i > 0 {
                assert(parts[p][i] == h[i - 1]);
            }
        }
        lemma_joined_printable(parts);
        assert(parts[0].len() > 0);
        lemma_printable(effect::gradient_text(stops));
    }
}

/// The lists of words with one more.
proof fn lemma_words_grow(all: Seq<Seq<char>>, d: Seq<char>)
    requires
        d.len() > 0,
        strings::trimmed(d) == d,
    ensures
        ({
            let keep = |p: Seq<char>| p.len() > 0;
            let cut = |p: Seq<char>| strings::trimmed(p);
            all.push(Seq::<char>::empty()).push(d).map_values(cut).filter(keep) == all.map_values(
                cut,
            ).filter(keep).push(d)
        }),
{
    let keep = |p: Seq<char>| p.len() > 0;
    let cut = |p: Seq<char>| strings::trimmed(p);
    let none = Seq::<char>::empty();
    reveal(Seq::filter);
    let one = all.push(none).map_values(cut);
    let two = all.push(none).push(d).map_values(cut);
    assert(strings::trimmed(none) =~= none);
    assert(one.drop_last() =~= all.map_values(cut));
    assert(one.last() =~= none);
    assert(one.filter(keep) == all.map_values(cut).filter(keep));
    assert(two.drop_last() =~= one);
    assert(two.last() == d);
    assert(keep(d));
    assert(two.filter(keep) == one.filter(keep).push(d));
}

proof fn lemma_list_words(list: Seq<u32>, n: int)
    requires
        1 <= n <= list.len(),
    ensures
        strings::words(list_text(list, n), config::list_separators()) == list.take(n).map_values(
            |k: u32| strings::digits(k as nat),
        ),
        list_text(list, n).len() > 0,
        strings::is_digit(list_text(list, n)[0]),
        strings::is_digit(list_text(list, n).last()),
        strings::free_of(list_text(list, n), seq!['\n']),
    decreases n,
{
    let seps = config::list_separators();
    let keep = |p: Seq<char>| p.len() > 0;
    let cut = |p: Seq<char>| strings::trimmed(p);
    let show = |k: u32| strings::digits(k as nat);
    let d = strings::digits(list[n - 1] as nat);
    strings::lemma_digits(list[n - 1] as nat);
    assert(strings::is_digit(d[0]));
    assert(strings::is_digit(d[d.len() - 1]));
    strings::lemma_trimmed(d);
    assert forall|i: int| 0 <= i < d.len() implies !seps.contains(#[trigger] d[i]) by {
        assert(strings::is_digit(d[i]));
        if seps.contains(d[i]) {
            let k = choose|k: int| 0 <= k < seps.len() && seps[k] == d[i];
            assert(k < 3);
        }
    }
    assert forall|i: int| 0 <= i < d.len() implies !seq!['\n'].contains(#[trigger] d[i]) by {
        assert(strings::is_digit(d[i]));
    }
    let text = list_text(list, n);
    if n == 1 {
        strings::lemma_one_piece(d, seps);
        reveal(Seq::filter);
        let all = seq![d].map_values(cut);
        assert(all.drop_last() =~= Seq::<Seq<char>>::empty());
        assert(all.drop_last().filter(keep) =~= Seq::<Seq<char>>::empty());
        assert(all.last() == d);
        assert(all.filter(keep) =~= seq![d]);
        assert(list.take(1).map_values(show) =~= seq![d]);
    } else {
        lemma_list_words(list, n - 1);
        let before = list_text(list, n - 1);
        let none = Seq::<char>::empty();
        assert(seps[0] == ',' && seps[1] == ' ');
        assert(seps.contains(',') && seps.contains(' '));
        strings::lemma_pieces_append(before, ',', none, seps);
        assert(before.push(',') + none =~= before.push(','));
        strings::lemma_pieces_append(before.push(','), ' ', d, seps);
        let all = strings::pieces(before, seps);
        assert(strings::pieces(text, seps) == all.push(none).push(d));
        lemma_words_grow(all, d);
        assert(list.take(n).map_values(show) =~= list.take(n - 1).map_values(show).push(d));
        assert(text[0] == before[0]);
        assert(text.last() == d.last());
        assert forall|i: int| 0 <= i < text.len() implies !seq!['\n'].contains(#[trigger] text[i]) by {
            if i < before.len() {
                assert(text[i] == before[i]);
            } else if i >= before.len() + 2 {
                assert(text[i] == d[i - before.len() - 2]);
            }
        }
    }
}

proof fn lemma_spans(list: Seq<u32>, max: int, n: int)
    requires
        0 <= n <= list.len(),
        writable_list(list, max),
    ensures
        config::spans_of(list.take(n).map_values(|k: u32| strings::digits(k as nat))) == Some(
            list.take(n),
        ),
    decreases n,
{
    let show = |k: u32| strings::digits(k as nat);
    let words = list.take(n).map_values(show);
    if n == 0 {
        assert(list.take(0) =~= Seq::<u32>::empty());
    } else {
        lemma_spans(list, max, n - 1);
        assert(words.drop_last() =~= list.take(n - 1).map_values(show));
        assert(words.last() == strings::digits(list[n - 1] as nat));
        assert(0 < list[n - 1] <= config::MAX_SPAN);
        lemma_digits_writable(list[n - 1] as nat);
        assert(list.take(n - 1).push(list[n - 1]) =~= list.take(n));
    }
}

proof fn lemma_list(list: Seq<u32>, max: int)
    requires
        list.len() >= 1,
        writable_list(list, max),
    ensures
        writable(list_text(list, list.len() as int)),
        config::length_list(list_text(list, list.len() as int), max) == Some(list),
{
    lemma_list_words(list, list.len() as int);
    lemma_spans(list, max, list.len() as int);
    assert(list.take(list.len() as int) =~= list);
}

/// `st` with what `s` has for a key other than a coordinate.
pub open spec fn stored(st: Settings, s: Settings, zoom: Seq<char>, key: Key) -> Settings {
    match key {
        Key::Duration => Settings { duration: s.duration, ..st },
        Key::Presets => Settings { presets: s.presets, ..st },
        Key::Mode => Settings { mode: s.mode, ..st },
        Key::BgAlpha => Settings { bg_alpha: s.bg_alpha, ..st },
        Key::Zoom => Settings { zoom: st.zoom.push(zoom), ..st },
        Key::ClickThrough => Settings { click_through: s.click_through, ..st },
        Key::Clock12h => Settings { clock_12h: s.clock_12h, ..st },
        Key::ClockSeconds => Settings { clock_seconds: s.clock_seconds, ..st },
        Key::TimePad => Settings { pad: s.pad, ..st },
        Key::Centiseconds => Settings { centiseconds: s.centiseconds, ..st },
        Key::TrayIcon => Settings { tray_icon: s.tray_icon, ..st },
        Key::TrayGif => Settings { tray_gif: s.tray_gif, ..st },
        Key::PomoWork => Settings { work: s.work, ..st },
        Key::PomoBreak => Settings { short_break: s.short_break, ..st },
        Key::PomoLongBreak => Settings { long_break: s.long_break, ..st },
        Key::PomoRounds => Settings { rounds: s.rounds, ..st },
        Key::PomoCycles => Settings { cycles: s.cycles, ..st },
        Key::PomoSeq => Settings { steps: s.steps, ..st },
        Key::OnFinish => Settings { on_finish: s.on_finish, ..st },
        Key::TimeoutText => Settings { timeout_text: s.timeout_text, ..st },
        Key::Notify => Settings { notify: s.notify, ..st },
        Key::NotifyText => Settings { notify_text: s.notify_text, ..st },
        Key::AlarmSound => Settings { alarm_sound: s.alarm_sound, ..st },
        Key::AlarmVolume => Settings { alarm_volume: s.alarm_volume, ..st },
        Key::TextSource => Settings { text_source: s.text_source, ..st },
        Key::TextFont => Settings { text_font: s.text_font, ..st },
        Key::TrayThrottle => Settings { throttle: s.throttle, ..st },
        Key::TrayGifSpeed => Settings { gif_speed: s.gif_speed, ..st },
        Key::StatusFontPx => Settings { font_px: s.font_px, ..st },
        Key::Language => Settings { language: s.language, ..st },
        Key::ColorBg => Settings { color_bg: s.color_bg, ..st },
        Key::ColorRunning => Settings { running: s.running, ..st },
        Key::ColorPaused => Settings { paused: s.paused, ..st },
        Key::ColorDone => Settings { done: s.done, ..st },
        Key::TextEffect => Settings { effect: s.effect, ..st },
        Key::WindowX | Key::WindowY => st,
    }
}

proof fn lemma_stored_names(st: Settings, s: Settings, zoom: Seq<char>, key: Key, v: Seq<char>)
    requires
        wf(s),
        writable(zoom),
        value(s, zoom, key) == Some(v),
        key == Key::Mode || key == Key::TrayIcon || key == Key::TimePad || key == Key::TextEffect || key == Key::Language || key == Key::TrayThrottle,
    ensures
        writable(v),
        config::applied(st, key, v) == stored(st, s, zoom, key),
{
    reveal(config::applied);
    lemma_names_writable(s);
}

proof fn lemma_stored_switches(st: Settings, s: Settings, zoom: Seq<char>, key: Key, v: Seq<char>)
    requires
        wf(s),
        writable(zoom),
        value(s, zoom, key) == Some(v),
        key == Key::ClickThrough || key == Key::Clock12h || key == Key::ClockSeconds || key == Key::Centiseconds || key == Key::Notify,
    ensures
        writable(v),
        config::applied(st, key, v) == stored(st, s, zoom, key),
{
    reveal(config::applied);
    lemma_switch(true);
    lemma_switch(false);
}

proof fn lemma_stored_numbers(st: Settings, s: Settings, zoom: Seq<char>, key: Key, v: Seq<char>)
    requires
        wf(s),
        writable(zoom),
        value(s, zoom, key) == Some(v),
        key == Key::Duration || key == Key::BgAlpha || key == Key::PomoRounds || key == Key::PomoCycles || key == Key::AlarmVolume || key == Key::StatusFontPx || key == Key::TrayGifSpeed,
    ensures
        writable(v),
        config::applied(st, key, v) == stored(st, s, zoom, key),
{
    reveal(config::applied);
    lemma_digits_writable(s.duration as nat);
    lemma_digits_writable(s.bg_alpha as nat);
    lemma_digits_writable(s.rounds as nat);
    lemma_digits_writable(s.cycles as nat);
    lemma_digits_writable(s.alarm_volume as nat);
    lemma_digits_writable(s.font_px as nat);
    lemma_digits_writable(s.gif_speed as nat);
}

proof fn lemma_stored_lengths(st: Settings, s: Settings, zoom: Seq<char>, key: Key, v: Seq<char>)
    requires
        wf(s),
        writable(zoom),
        value(s, zoom, key) == Some(v),
        key == Key::PomoWork || key == Key::PomoBreak || key == Key::PomoLongBreak || key == Key::Presets || key == Key::PomoSeq,
    ensures
        writable(v),
        config::applied(st, key, v) == stored(st, s, zoom, key),
{
    reveal(config::applied);
    lemma_digits_writable(s.work as nat);
    lemma_digits_writable(s.short_break as nat);
    lemma_digits_writable(s.long_break as nat);
    lemma_list(s.presets, config::MAX_PRESETS as int);
    if s.steps.len() > 0 {
        lemma_list(s.steps, timer::MAX_POMO_STEPS as int);
    }
}

proof fn lemma_stored_texts(st: Settings, s: Settings, zoom: Seq<char>, key: Key, v: Seq<char>)
    requires
        wf(s),
        writable(zoom),
        value(s, zoom, key) == Some(v),
        key == Key::TrayGif || key == Key::Zoom || key == Key::OnFinish || key == Key::TimeoutText || key == Key::NotifyText || key == Key::TextSource || key == Key::TextFont || key == Key::AlarmSound,
    ensures
        writable(v),
        config::applied(st, key, v) == stored(st, s, zoom, key),
{
    reveal(config::applied);
    lemma_font(s.text_font);
}

proof fn lemma_stored_colors(st: Settings, s: Settings, zoom: Seq<char>, key: Key, v: Seq<char>)
    requires
        wf(s),
        writable(zoom),
        value(s, zoom, key) == Some(v),
        key == Key::ColorBg || key == Key::ColorRunning || key == Key::ColorPaused || key == Key::ColorDone,
    ensures
        writable(v),
        config::applied(st, key, v) == stored(st, s, zoom, key),
{
    reveal(config::applied);
    lemma_background(s.color_bg);
    lemma_colors(s.running);
    lemma_colors(s.paused);
    lemma_colors(s.done);
}

/// A value that is written is what is read.
proof fn lemma_stored(st: Settings, s: Settings, zoom: Seq<char>, key: Key, v: Seq<char>)
    requires
        wf(s),
        writable(zoom),
        value(s, zoom, key) == Some(v),
    ensures
        writable(v),
        key != Key::WindowX && key != Key::WindowY ==> config::applied(st, key, v) == stored(
            st,
            s,
            zoom,
            key,
        ),
        key == Key::WindowX ==> config::coordinate(v) == Some((s.place->0).0),
        key == Key::WindowY ==> config::coordinate(v) == Some((s.place->0).1),
{
    match key {
        Key::Mode => lemma_stored_names(st, s, zoom, key, v),
        Key::TrayIcon => lemma_stored_names(st, s, zoom, key, v),
        Key::TimePad => lemma_stored_names(st, s, zoom, key, v),
        Key::TextEffect => lemma_stored_names(st, s, zoom, key, v),
        Key::ClickThrough => lemma_stored_switches(st, s, zoom, key, v),
        Key::Clock12h => lemma_stored_switches(st, s, zoom, key, v),
        Key::ClockSeconds => lemma_stored_switches(st, s, zoom, key, v),
        Key::Centiseconds => lemma_stored_switches(st, s, zoom, key, v),
        Key::Notify => lemma_stored_switches(st, s, zoom, key, v),
        Key::Duration => lemma_stored_numbers(st, s, zoom, key, v),
        Key::BgAlpha => lemma_stored_numbers(st, s, zoom, key, v),
        Key::PomoRounds => lemma_stored_numbers(st, s, zoom, key, v),
        Key::PomoCycles => lemma_stored_numbers(st, s, zoom, key, v),
        Key::AlarmVolume => lemma_stored_numbers(st, s, zoom, key, v),
        Key::TrayThrottle => lemma_stored_names(st, s, zoom, key, v),
        Key::TrayGifSpeed => lemma_stored_numbers(st, s, zoom, key, v),
        Key::StatusFontPx => lemma_stored_numbers(st, s, zoom, key, v),
        Key::Language => lemma_stored_names(st, s, zoom, key, v),
        Key::PomoSeq => lemma_stored_lengths(st, s, zoom, key, v),
        Key::AlarmSound => lemma_stored_texts(st, s, zoom, key, v),
        Key::PomoWork => lemma_stored_lengths(st, s, zoom, key, v),
        Key::PomoBreak => lemma_stored_lengths(st, s, zoom, key, v),
        Key::PomoLongBreak => lemma_stored_lengths(st, s, zoom, key, v),
        Key::Presets => lemma_stored_lengths(st, s, zoom, key, v),
        Key::TrayGif => lemma_stored_texts(st, s, zoom, key, v),
        Key::Zoom => lemma_stored_texts(st, s, zoom, key, v),
        Key::OnFinish => lemma_stored_texts(st, s, zoom, key, v),
        Key::TimeoutText => lemma_stored_texts(st, s, zoom, key, v),
        Key::NotifyText => lemma_stored_texts(st, s, zoom, key, v),
        Key::TextSource => lemma_stored_texts(st, s, zoom, key, v),
        Key::TextFont => lemma_stored_texts(st, s, zoom, key, v),
        Key::ColorBg => lemma_stored_colors(st, s, zoom, key, v),
        Key::ColorRunning => lemma_stored_colors(st, s, zoom, key, v),
        Key::ColorPaused => lemma_stored_colors(st, s, zoom, key, v),
        Key::ColorDone => lemma_stored_colors(st, s, zoom, key, v),
        Key::WindowX => lemma_int_writable((s.place->0).0 as int),
        Key::WindowY => lemma_int_writable((s.place->0).1 as int),
    }
}

proof fn lemma_index(s: Seq<char>, c: char, i: int, at: int)
    requires
        0 <= i <= at < s.len(),
        s[at] == c,
        forall|k: int| i <= k < at ==> #[trigger] s[k] != c,
    ensures
        strings::index_from(s, c, i) == at,
    decreases at - i,
{
    if i < at {
        lemma_index(s, c, i + 1, at);
    }
}

/// The line of a key and its value is read as that key and that value.
proof fn lemma_entry(key: Key, v: Seq<char>)
    requires
        writable(v),
    ensures
        config::entry(line_text(key, v)) == Some((key, v)),
        strings::free_of(line_text(key, v), seq!['\n']),
{
    let t = line_text(key, v);
    let k = key.text();
    let n = k.len() as int;
    config::lemma_key_shape(key);
    config::lemma_key_is(key);
    assert(t[0] == k[0]);
    assert(t.last() == v.last());
    strings::lemma_trimmed(t);
    assert(!seq!['=', '\n', '#'].contains(k[0]));
    assert(seq!['=', '\n', '#'][2] == '#');
    assert(t[0] != '#');
    assert forall|i: int| 0 <= i < n + 1 implies #[trigger] t[i] != '=' by {
        if i < n {
            assert(t[i] == k[i]);
            assert(!seq!['=', '\n', '#'].contains(k[i]));
            assert(seq!['=', '\n', '#'][0] == '=');
        }
    }
    lemma_index(t, '=', 0, n + 1);
    let left = t.subrange(0, n + 1);
    let right = t.subrange(n + 2, t.len() as int);
    assert(left =~= k.push(' '));
    assert(left.drop_last() =~= k);
    assert(strings::trim_start(left) == left);
    assert(strings::trim_end(k) == k);
    assert(strings::trimmed(left) == k);
    assert(right =~= seq![' '] + v);
    assert(right.subrange(1, right.len() as int) =~= v);
    assert(strings::trim_start(v) == v);
    assert(strings::trimmed(right) == v);
    assert forall|i: int| 0 <= i < t.len() implies !seq!['\n'].contains(#[trigger] t[i]) by {
        if i < n {
            assert(t[i] == k[i]);
            assert(!seq!['=', '\n', '#'].contains(k[i]));
            assert(seq!['=', '\n', '#'][1] == '\n');
        } else if i >= n + 3 {
            assert(t[i] == v[i - n - 3]);
        }
    }
}

/// What is read of the first `n` keys.
pub open spec fn read_upto(s: Settings, zoom: Seq<char>, n: int) -> config::Reading
    decreases n,
{
    if n <= 0 {
        config::Reading { settings: config::factory(), x: None, y: None }
    } else {
        let before = read_upto(s, zoom, n - 1);
        let key = ORDER@[n - 1];
        if value(s, zoom, key) is None {
            before
        } else if key == Key::WindowX {
            config::Reading { x: Some((s.place->0).0), ..before }
        } else if key == Key::WindowY {
            config::Reading { y: Some((s.place->0).1), ..before }
        } else {
            config::Reading { settings: stored(before.settings, s, zoom, key), ..before }
        }
    }
}

/// What is read of some lines does not depend on those that follow.
proof fn lemma_lines_before(lines: Seq<Seq<char>>, more: Seq<char>, n: int)
    requires
        0 <= n <= lines.len(),
    ensures
        config::after_lines(lines.push(more), n) == config::after_lines(lines, n),
    decreases n,
{
    if n > 0 {
        lemma_lines_before(lines, more, n - 1);
        assert(lines.push(more)[n - 1] == lines[n - 1]);
    }
}

proof fn lemma_heading()
    ensures
        config::entry(heading()) is None,
        strings::free_of(heading(), seq!['\n']),
{
    reveal_strlit("# tinyticker 配置（手动编辑后即时生效，见 README「配置」一节）");
    let h = heading();
    strings::lemma_trimmed(h);
    assert(h[0] == '#');
    assert forall|i: int| 0 <= i < h.len() implies !seq!['\n'].contains(#[trigger] h[i]) by {
    }
}

proof fn lemma_read_upto(s: Settings, zoom: Seq<char>, n: int)
    requires
        wf(s),
        writable(zoom),
        0 <= n <= 37,
    ensures
        ({
            let lines = strings::pieces(text_upto(s, zoom, n), seq!['\n']);
            config::after_lines(lines, lines.len() as int) == read_upto(s, zoom, n)
        }),
    decreases n,
{
    let ends = seq!['\n'];
    assert(ends[0] == '\n');
    if n == 0 {
        lemma_heading();
        strings::lemma_one_piece(heading(), ends);
        let lines = seq![heading()];
        assert(config::after_lines(lines, 0) == read_upto(s, zoom, 0));
        assert(config::after_lines(lines, 1) == config::after_line(config::after_lines(lines, 0), lines[0]));
    } else {
        lemma_read_upto(s, zoom, n - 1);
        let key = ORDER@[n - 1];
        match value(s, zoom, key) {
            Some(v) => {
                let before = strings::pieces(text_upto(s, zoom, n - 1), ends);
                let line = line_text(key, v);
                lemma_stored(read_upto(s, zoom, n - 1).settings, s, zoom, key, v);
                lemma_entry(key, v);
                strings::lemma_pieces_append(text_upto(s, zoom, n - 1), '\n', line, ends);
                lemma_lines_before(before, line, before.len() as int);
                assert(before.push(line)[before.len() as int] == line);
            },
            None => {},
        }
    }
}

proof fn lemma_read_4(s: Settings, zoom: Seq<char>)
    ensures
        read_upto(s, zoom, 4) == (config::Reading { settings: Settings { duration: s.duration, presets: s.presets, mode: s.mode, bg_alpha: s.bg_alpha, ..config::factory() }, x: None, y: None }),
{
    assert(read_upto(s, zoom, 0) == (config::Reading { settings: config::factory(), x: None, y: None }));
    assert(ORDER@[0] == Key::Duration);
    assert(read_upto(s, zoom, 1) == (config::Reading { settings: Settings { duration: s.duration, ..config::factory() }, x: None, y: None }));
    assert(ORDER@[1] == Key::Presets);
    assert(read_upto(s, zoom, 2) == (config::Reading { settings: Settings { duration: s.duration, presets: s.presets, ..config::factory() }, x: None, y: None }));
    assert(ORDER@[2] == Key::Mode);
    assert(read_upto(s, zoom, 3) == (config::Reading { settings: Settings { duration: s.duration, presets: s.presets, mode: s.mode, ..config::factory() }, x: None, y: None }));
    assert(ORDER@[3] == Key::BgAlpha);
    assert(read_upto(s, zoom, 4) == (config::Reading { settings: Settings { duration: s.duration, presets: s.presets, mode: s.mode, bg_alpha: s.bg_alpha, ..config::factory() }, x: None, y: None }));
}

proof fn lemma_read_8(s: Settings, zoom: Seq<char>)
    ensures
        read_upto(s, zoom, 8) == (config::Reading { settings: Settings { duration: s.duration, presets: s.presets, mode: s.mode, bg_alpha: s.bg_alpha, zoom: seq![zoom], click_through: s.click_through, clock_12h: s.clock_12h, clock_seconds: s.clock_seconds, ..config::factory() }, x: None, y: None }),
{
    lemma_read_4(s, zoom);
    assert(ORDER@[4] == Key::Zoom);
    assert(Seq::<Seq<char>>::empty().push(zoom) =~= seq![zoom]);
    assert(read_upto(s, zoom, 5) == (config::Reading { settings: Settings { duration: s.duration, presets: s.presets, mode: s.mode, bg_alpha: s.bg_alpha, zoom: seq![zoom], ..config::factory() }, x: None, y: None }));
    assert(ORDER@[5] == Key::ClickThrough);
    assert(read_upto(s, zoom, 6) == (config::Reading { settings: Settings { duration: s.duration, presets: s.presets, mode: s.mode, bg_alpha: s.bg_alpha, zoom: seq![zoom], click_through: s.click_through, ..config::factory() }, x: None, y: None }));
    assert(ORDER@[6] == Key::Clock12h);
    assert(read_upto(s, zoom, 7) == (config::Reading { settings: Settings { duration: s.duration, presets: s.presets, mode: s.mode, bg_alpha: s.bg_alpha, zoom: seq![zoom], click_through: s.click_through, clock_12h: s.clock_12h, ..config::factory() }, x: None, y: None }));
    assert(ORDER@[7] == Key::ClockSeconds);
    assert(read_upto(s, zoom, 8) == (config::Reading { settings: Settings { duration: s.duration, presets: s.presets, mode: s.mode, bg_alpha: s.bg_alpha, zoom: seq![zoom], click_through: s.click_through, clock_12h: s.clock_12h, clock_seconds: s.clock_seconds, ..config::factory() }, x: None, y: None }));
}

proof fn lemma_read_12(s: Settings, zoom: Seq<char>)
    ensures
        read_upto(s, zoom, 12) == (config::Reading { settings: Settings { duration: s.duration, presets: s.presets, mode: s.mode, bg_alpha: s.bg_alpha, zoom: seq![zoom], click_through: s.click_through, clock_12h: s.clock_12h, clock_seconds: s.clock_seconds, pad: s.pad, centiseconds: s.centiseconds, tray_icon: s.tray_icon, throttle: s.throttle, ..config::factory() }, x: None, y: None }),
{
    lemma_read_8(s, zoom);
    assert(ORDER@[8] == Key::TimePad);
    assert(read_upto(s, zoom, 9) == (config::Reading { settings: Settings { duration: s.duration, presets: s.presets, mode: s.mode, bg_alpha: s.bg_alpha, zoom: seq![zoom], click_through: s.click_through, clock_12h: s.clock_12h, clock_seconds: s.clock_seconds, pad: s.pad, ..config::factory() }, x: None, y: None }));
    assert(ORDER@[9] == Key::Centiseconds);
    assert(read_upto(s, zoom, 10) == (config::Reading { settings: Settings { duration: s.duration, presets: s.presets, mode: s.mode, bg_alpha: s.bg_alpha, zoom: seq![zoom], click_through: s.click_through, clock_12h: s.clock_12h, clock_seconds: s.clock_seconds, pad: s.pad, centiseconds: s.centiseconds, ..config::factory() }, x: None, y: None }));
    assert(ORDER@[10] == Key::TrayIcon);
    assert(read_upto(s, zoom, 11) == (config::Reading { settings: Settings { duration: s.duration, presets: s.presets, mode: s.mode, bg_alpha: s.bg_alpha, zoom: seq![zoom], click_through: s.click_through, clock_12h: s.clock_12h, clock_seconds: s.clock_seconds, pad: s.pad, centiseconds: s.centiseconds, tray_icon: s.tray_icon, ..config::factory() }, x: None, y: None }));
    assert(ORDER@[11] == Key::TrayThrottle);
    assert(read_upto(s, zoom, 12) == (config::Reading { settings: Settings { duration: s.duration, presets: s.presets, mode: s.mode, bg_alpha: s.bg_alpha, zoom: seq![zoom], click_through: s.click_through, clock_12h: s.clock_12h, clock_seconds: s.clock_seconds, pad: s.pad, centiseconds: s.centiseconds, tray_icon: s.tray_icon, throttle: s.throttle, ..config::factory() }, x: None, y: None }));
}

proof fn lemma_read_16(s: Settings, zoom: Seq<char>)
    ensures
        read_upto(s, zoom, 16) == (config::Reading { settings: Settings { duration: s.duration, presets: s.presets, mode: s.mode, bg_alpha: s.bg_alpha, zoom: seq![zoom], click_through: s.click_through, clock_12h: s.clock_12h, clock_seconds: s.clock_seconds, pad: s.pad, centiseconds: s.centiseconds, tray_icon: s.tray_icon, throttle: s.throttle, gif_speed: s.gif_speed, tray_gif: s.tray_gif, work: s.work, short_break: s.short_break, ..config::factory() }, x: None, y: None }),
{
    lemma_read_12(s, zoom);
    assert(ORDER@[12] == Key::TrayGifSpeed);
    assert(read_upto(s, zoom, 13) == (config::Reading { settings: Settings { duration: s.duration, presets: s.presets, mode: s.mode, bg_alpha: s.bg_alpha, zoom: seq![zoom], click_through: s.click_through, clock_12h: s.clock_12h, clock_seconds: s.clock_seconds, pad: s.pad, centiseconds: s.centiseconds, tray_icon: s.tray_icon, throttle: s.throttle, gif_speed: s.gif_speed, ..config::factory() }, x: None, y: None }));
    assert(ORDER@[13] == Key::TrayGif);
    assert(read_upto(s, zoom, 14) == (config::Reading { settings: Settings { duration: s.duration, presets: s.presets, mode: s.mode, bg_alpha: s.bg_alpha, zoom: seq![zoom], click_through: s.click_through, clock_12h: s.clock_12h, clock_seconds: s.clock_seconds, pad: s.pad, centiseconds: s.centiseconds, tray_icon: s.tray_icon, throttle: s.throttle, gif_speed: s.gif_speed, tray_gif: s.tray_gif, ..config::factory() }, x: None, y: None }));
    assert(ORDER@[14] == Key::PomoWork);
    assert(read_upto(s, zoom, 15) == (config::Reading { settings: Settings { duration: s.duration, presets: s.presets, mode: s.mode, bg_alpha: s.bg_alpha, zoom: seq![zoom], click_through: s.click_through, clock_12h: s.clock_12h, clock_seconds: s.clock_seconds, pad: s.pad, centiseconds: s.centiseconds, tray_icon: s.tray_icon, throttle: s.throttle, gif_speed: s.gif_speed, tray_gif: s.tray_gif, work: s.work, ..config::factory() }, x: None, y: None }));
    assert(ORDER@[15] == Key::PomoBreak);
    assert(read_upto(s, zoom, 16) == (config::Reading { settings: Settings { duration: s.duration, presets: s.presets, mode: s.mode, bg_alpha: s.bg_alpha, zoom: seq![zoom], click_through: s.click_through, clock_12h: s.clock_12h, clock_seconds: s.clock_seconds, pad: s.pad, centiseconds: s.centiseconds, tray_icon: s.tray_icon, throttle: s.throttle, gif_speed: s.gif_speed, tray_gif: s.tray_gif, work: s.work, short_break: s.short_break, ..config::factory() }, x: None, y: None }));
}

proof fn lemma_read_20(s: Settings, zoom: Seq<char>)
    ensures
        read_upto(s, zoom, 20) == (config::Reading { settings: Settings { duration: s.duration, presets: s.presets, mode: s.mode, bg_alpha: s.bg_alpha, zoom: seq![zoom], click_through: s.click_through, clock_12h: s.clock_12h, clock_seconds: s.clock_seconds, pad: s.pad, centiseconds: s.centiseconds, tray_icon: s.tray_icon, throttle: s.throttle, gif_speed: s.gif_speed, tray_gif: s.tray_gif, work: s.work, short_break: s.short_break, long_break: s.long_break, rounds: s.rounds, cycles: s.cycles, steps: s.steps, ..config::factory() }, x: None, y: None }),
{
    lemma_read_16(s, zoom);
    assert(ORDER@[16] == Key::PomoLongBreak);
    assert(read_upto(s, zoom, 17) == (config::Reading { settings: Settings { duration: s.duration, presets: s.presets, mode: s.mode, bg_alpha: s.bg_alpha, zoom: seq![zoom], click_through: s.click_through, clock_12h: s.clock_12h, clock_seconds: s.clock_seconds, pad: s.pad, centiseconds: s.centiseconds, tray_icon: s.tray_icon, throttle: s.throttle, gif_speed: s.gif_speed, tray_gif: s.tray_gif, work: s.work, short_break: s.short_break, long_break: s.long_break, ..config::factory() }, x: None, y: None }));
    assert(ORDER@[17] == Key::PomoRounds);
    assert(read_upto(s, zoom, 18) == (config::Reading { settings: Settings { duration: s.duration, presets: s.presets, mode: s.mode, bg_alpha: s.bg_alpha, zoom: seq![zoom], click_through: s.click_through, clock_12h: s.clock_12h, clock_seconds: s.clock_seconds, pad: s.pad, centiseconds: s.centiseconds, tray_icon: s.tray_icon, throttle: s.throttle, gif_speed: s.gif_speed, tray_gif: s.tray_gif, work: s.work, short_break: s.short_break, long_break: s.long_break, rounds: s.rounds, ..config::factory() }, x: None, y: None }));
    assert(ORDER@[18] == Key::PomoCycles);
    assert(read_upto(s, zoom, 19) == (config::Reading { settings: Settings { duration: s.duration, presets: s.presets, mode: s.mode, bg_alpha: s.bg_alpha, zoom: seq![zoom], click_through: s.click_through, clock_12h: s.clock_12h, clock_seconds: s.clock_seconds, pad: s.pad, centiseconds: s.centiseconds, tray_icon: s.tray_icon, throttle: s.throttle, gif_speed: s.gif_speed, tray_gif: s.tray_gif, work: s.work, short_break: s.short_break, long_break: s.long_break, rounds: s.rounds, cycles: s.cycles, ..config::factory() }, x: None, y: None }));
    assert(ORDER@[19] == Key::PomoSeq);
    if s.steps.len() == 0 {
        assert(s.steps =~= Seq::<u32>::empty());
    }
    assert(read_upto(s, zoom, 20) == (config::Reading { settings: Settings { duration: s.duration, presets: s.presets, mode: s.mode, bg_alpha: s.bg_alpha, zoom: seq![zoom], click_through: s.click_through, clock_12h: s.clock_12h, clock_seconds: s.clock_seconds, pad: s.pad, centiseconds: s.centiseconds, tray_icon: s.tray_icon, throttle: s.throttle, gif_speed: s.gif_speed, tray_gif: s.tray_gif, work: s.work, short_break: s.short_break, long_break: s.long_break, rounds: s.rounds, cycles: s.cycles, steps: s.steps, ..config::factory() }, x: None, y: None }));
}

proof fn lemma_read_24(s: Settings, zoom: Seq<char>)
    ensures
        read_upto(s, zoom, 24) == (config::Reading { settings: Settings { duration: s.duration, presets: s.presets, mode: s.mode, bg_alpha: s.bg_alpha, zoom: seq![zoom], click_through: s.click_through, clock_12h: s.clock_12h, clock_seconds: s.clock_seconds, pad: s.pad, centiseconds: s.centiseconds, tray_icon: s.tray_icon, throttle: s.throttle, gif_speed: s.gif_speed, tray_gif: s.tray_gif, work: s.work, short_break: s.short_break, long_break: s.long_break, rounds: s.rounds, cycles: s.cycles, steps: s.steps, on_finish: s.on_finish, timeout_text: s.timeout_text, notify: s.notify, notify_text: s.notify_text, ..config::factory() }, x: None, y: None }),
{
    lemma_read_20(s, zoom);
    assert(ORDER@[20] == Key::OnFinish);
    assert(read_upto(s, zoom, 21) == (config::Reading { settings: Settings { duration: s.duration, presets: s.presets, mode: s.mode, bg_alpha: s.bg_alpha, zoom: seq![zoom], click_through: s.click_through, clock_12h: s.clock_12h, clock_seconds: s.clock_seconds, pad: s.pad, centiseconds: s.centiseconds, tray_icon: s.tray_icon, throttle: s.throttle, gif_speed: s.gif_speed, tray_gif: s.tray_gif, work: s.work, short_break: s.short_break, long_break: s.long_break, rounds: s.rounds, cycles: s.cycles, steps: s.steps, on_finish: s.on_finish, ..config::factory() }, x: None, y: None }));
    assert(ORDER@[21] == Key::TimeoutText);
    assert(read_upto(s, zoom, 22) == (config::Reading { settings: Settings { duration: s.duration, presets: s.presets, mode: s.mode, bg_alpha: s.bg_alpha, zoom: seq![zoom], click_through: s.click_through, clock_12h: s.clock_12h, clock_seconds: s.clock_seconds, pad: s.pad, centiseconds: s.centiseconds, tray_icon: s.tray_icon, throttle: s.throttle, gif_speed: s.gif_speed, tray_gif: s.tray_gif, work: s.work, short_break: s.short_break, long_break: s.long_break, rounds: s.rounds, cycles: s.cycles, steps: s.steps, on_finish: s.on_finish, timeout_text: s.timeout_text, ..config::factory() }, x: None, y: None }));
    assert(ORDER@[22] == Key::Notify);
    assert(read_upto(s, zoom, 23) == (config::Reading { settings: Settings { duration: s.duration, presets: s.presets, mode: s.mode, bg_alpha: s.bg_alpha, zoom: seq![zoom], click_through: s.click_through, clock_12h: s.clock_12h, clock_seconds: s.clock_seconds, pad: s.pad, centiseconds: s.centiseconds, tray_icon: s.tray_icon, throttle: s.throttle, gif_speed: s.gif_speed, tray_gif: s.tray_gif, work: s.work, short_break: s.short_break, long_break: s.long_break, rounds: s.rounds, cycles: s.cycles, steps: s.steps, on_finish: s.on_finish, timeout_text: s.timeout_text, notify: s.notify, ..config::factory() }, x: None, y: None }));
    assert(ORDER@[23] == Key::NotifyText);
    assert(read_upto(s, zoom, 24) == (config::Reading { settings: Settings { duration: s.duration, presets: s.presets, mode: s.mode, bg_alpha: s.bg_alpha, zoom: seq![zoom], click_through: s.click_through, clock_12h: s.clock_12h, clock_seconds: s.clock_seconds, pad: s.pad, centiseconds: s.centiseconds, tray_icon: s.tray_icon, throttle: s.throttle, gif_speed: s.gif_speed, tray_gif: s.tray_gif, work: s.work, short_break: s.short_break, long_break: s.long_break, rounds: s.rounds, cycles: s.cycles, steps: s.steps, on_finish: s.on_finish, timeout_text: s.timeout_text, notify: s.notify, notify_text: s.notify_text, ..config::factory() }, x: None, y: None }));
}

proof fn lemma_read_28(s: Settings, zoom: Seq<char>)
    ensures
        read_upto(s, zoom, 28) == (config::Reading { settings: Settings { duration: s.duration, presets: s.presets, mode: s.mode, bg_alpha: s.bg_alpha, zoom: seq![zoom], click_through: s.click_through, clock_12h: s.clock_12h, clock_seconds: s.clock_seconds, pad: s.pad, centiseconds: s.centiseconds, tray_icon: s.tray_icon, throttle: s.throttle, gif_speed: s.gif_speed, tray_gif: s.tray_gif, work: s.work, short_break: s.short_break, long_break: s.long_break, rounds: s.rounds, cycles: s.cycles, steps: s.steps, on_finish: s.on_finish, timeout_text: s.timeout_text, notify: s.notify, notify_text: s.notify_text, alarm_sound: s.alarm_sound, alarm_volume: s.alarm_volume, text_source: s.text_source, text_font: s.text_font, ..config::factory() }, x: None, y: None }),
{
    lemma_read_24(s, zoom);
    assert(ORDER@[24] == Key::AlarmSound);
    assert(read_upto(s, zoom, 25) == (config::Reading { settings: Settings { duration: s.duration, presets: s.presets, mode: s.mode, bg_alpha: s.bg_alpha, zoom: seq![zoom], click_through: s.click_through, clock_12h: s.clock_12h, clock_seconds: s.clock_seconds, pad: s.pad, centiseconds: s.centiseconds, tray_icon: s.tray_icon, throttle: s.throttle, gif_speed: s.gif_speed, tray_gif: s.tray_gif, work: s.work, short_break: s.short_break, long_break: s.long_break, rounds: s.rounds, cycles: s.cycles, steps: s.steps, on_finish: s.on_finish, timeout_text: s.timeout_text, notify: s.notify, notify_text: s.notify_text, alarm_sound: s.alarm_sound, ..config::factory() }, x: None, y: None }));
    assert(ORDER@[25] == Key::AlarmVolume);
    assert(read_upto(s, zoom, 26) == (config::Reading { settings: Settings { duration: s.duration, presets: s.presets, mode: s.mode, bg_alpha: s.bg_alpha, zoom: seq![zoom], click_through: s.click_through, clock_12h: s.clock_12h, clock_seconds: s.clock_seconds, pad: s.pad, centiseconds: s.centiseconds, tray_icon: s.tray_icon, throttle: s.throttle, gif_speed: s.gif_speed, tray_gif: s.tray_gif, work: s.work, short_break: s.short_break, long_break: s.long_break, rounds: s.rounds, cycles: s.cycles, steps: s.steps, on_finish: s.on_finish, timeout_text: s.timeout_text, notify: s.notify, notify_text: s.notify_text, alarm_sound: s.alarm_sound, alarm_volume: s.alarm_volume, ..config::factory() }, x: None, y: None }));
    assert(ORDER@[26] == Key::TextSource);
    assert(read_upto(s, zoom, 27) == (config::Reading { settings: Settings { duration: s.duration, presets: s.presets, mode: s.mode, bg_alpha: s.bg_alpha, zoom: seq![zoom], click_through: s.click_through, clock_12h: s.clock_12h, clock_seconds: s.clock_seconds, pad: s.pad, centiseconds: s.centiseconds, tray_icon: s.tray_icon, throttle: s.throttle, gif_speed: s.gif_speed, tray_gif: s.tray_gif, work: s.work, short_break: s.short_break, long_break: s.long_break, rounds: s.rounds, cycles: s.cycles, steps: s.steps, on_finish: s.on_finish, timeout_text: s.timeout_text, notify: s.notify, notify_text: s.notify_text, alarm_sound: s.alarm_sound, alarm_volume: s.alarm_volume, text_source: s.text_source, ..config::factory() }, x: None, y: None }));
    assert(ORDER@[27] == Key::TextFont);
    assert(read_upto(s, zoom, 28) == (config::Reading { settings: Settings { duration: s.duration, presets: s.presets, mode: s.mode, bg_alpha: s.bg_alpha, zoom: seq![zoom], click_through: s.click_through, clock_12h: s.clock_12h, clock_seconds: s.clock_seconds, pad: s.pad, centiseconds: s.centiseconds, tray_icon: s.tray_icon, throttle: s.throttle, gif_speed: s.gif_speed, tray_gif: s.tray_gif, work: s.work, short_break: s.short_break, long_break: s.long_break, rounds: s.rounds, cycles: s.cycles, steps: s.steps, on_finish: s.on_finish, timeout_text: s.timeout_text, notify: s.notify, notify_text: s.notify_text, alarm_sound: s.alarm_sound, alarm_volume: s.alarm_volume, text_source: s.text_source, text_font: s.text_font, ..config::factory() }, x: None, y: None }));
}

proof fn lemma_read_35(s: Settings, zoom: Seq<char>)
    ensures
        read_upto(s, zoom, 35) == (config::Reading { settings: Settings { duration: s.duration, presets: s.presets, mode: s.mode, bg_alpha: s.bg_alpha, zoom: seq![zoom], click_through: s.click_through, clock_12h: s.clock_12h, clock_seconds: s.clock_seconds, pad: s.pad, centiseconds: s.centiseconds, tray_icon: s.tray_icon, throttle: s.throttle, gif_speed: s.gif_speed, tray_gif: s.tray_gif, work: s.work, short_break: s.short_break, long_break: s.long_break, rounds: s.rounds, cycles: s.cycles, steps: s.steps, on_finish: s.on_finish, timeout_text: s.timeout_text, notify: s.notify, notify_text: s.notify_text, alarm_sound: s.alarm_sound, alarm_volume: s.alarm_volume, text_source: s.text_source, text_font: s.text_font, font_px: s.font_px, language: s.language, color_bg: s.color_bg, running: s.running, paused: s.paused, done: s.done, effect: s.effect, ..config::factory() }, x: None, y: None }),
{
    lemma_read_28(s, zoom);
    assert(ORDER@[28] == Key::StatusFontPx);
    assert(read_upto(s, zoom, 29) == (config::Reading { settings: Settings { duration: s.duration, presets: s.presets, mode: s.mode, bg_alpha: s.bg_alpha, zoom: seq![zoom], click_through: s.click_through, clock_12h: s.clock_12h, clock_seconds: s.clock_seconds, pad: s.pad, centiseconds: s.centiseconds, tray_icon: s.tray_icon, throttle: s.throttle, gif_speed: s.gif_speed, tray_gif: s.tray_gif, work: s.work, short_break: s.short_break, long_break: s.long_break, rounds: s.rounds, cycles: s.cycles, steps: s.steps, on_finish: s.on_finish, timeout_text: s.timeout_text, notify: s.notify, notify_text: s.notify_text, alarm_sound: s.alarm_sound, alarm_volume: s.alarm_volume, text_source: s.text_source, text_font: s.text_font, font_px: s.font_px, ..config::factory() }, x: None, y: None }));
    assert(ORDER@[29] == Key::Language);
    assert(read_upto(s, zoom, 30) == (config::Reading { settings: Settings { duration: s.duration, presets: s.presets, mode: s.mode, bg_alpha: s.bg_alpha, zoom: seq![zoom], click_through: s.click_through, clock_12h: s.clock_12h, clock_seconds: s.clock_seconds, pad: s.pad, centiseconds: s.centiseconds, tray_icon: s.tray_icon, throttle: s.throttle, gif_speed: s.gif_speed, tray_gif: s.tray_gif, work: s.work, short_break: s.short_break, long_break: s.long_break, rounds: s.rounds, cycles: s.cycles, steps: s.steps, on_finish: s.on_finish, timeout_text: s.timeout_text, notify: s.notify, notify_text: s.notify_text, alarm_sound: s.alarm_sound, alarm_volume: s.alarm_volume, text_source: s.text_source, text_font: s.text_font, font_px: s.font_px, language: s.language, ..config::factory() }, x: None, y: None }));
    assert(ORDER@[30] == Key::ColorBg);
    assert(read_upto(s, zoom, 31) == (config::Reading { settings: Settings { duration: s.duration, presets: s.presets, mode: s.mode, bg_alpha: s.bg_alpha, zoom: seq![zoom], click_through: s.click_through, clock_12h: s.clock_12h, clock_seconds: s.clock_seconds, pad: s.pad, centiseconds: s.centiseconds, tray_icon: s.tray_icon, throttle: s.throttle, gif_speed: s.gif_speed, tray_gif: s.tray_gif, work: s.work, short_break: s.short_break, long_break: s.long_break, rounds: s.rounds, cycles: s.cycles, steps: s.steps, on_finish: s.on_finish, timeout_text: s.timeout_text, notify: s.notify, notify_text: s.notify_text, alarm_sound: s.alarm_sound, alarm_volume: s.alarm_volume, text_source: s.text_source, text_font: s.text_font, font_px: s.font_px, language: s.language, color_bg: s.color_bg, ..config::factory() }, x: None, y: None }));
    assert(ORDER@[31] == Key::ColorRunning);
    assert(read_upto(s, zoom, 32) == (config::Reading { settings: Settings { duration: s.duration, presets: s.presets, mode: s.mode, bg_alpha: s.bg_alpha, zoom: seq![zoom], click_through: s.click_through, clock_12h: s.clock_12h, clock_seconds: s.clock_seconds, pad: s.pad, centiseconds: s.centiseconds, tray_icon: s.tray_icon, throttle: s.throttle, gif_speed: s.gif_speed, tray_gif: s.tray_gif, work: s.work, short_break: s.short_break, long_break: s.long_break, rounds: s.rounds, cycles: s.cycles, steps: s.steps, on_finish: s.on_finish, timeout_text: s.timeout_text, notify: s.notify, notify_text: s.notify_text, alarm_sound: s.alarm_sound, alarm_volume: s.alarm_volume, text_source: s.text_source, text_font: s.text_font, font_px: s.font_px, language: s.language, color_bg: s.color_bg, running: s.running, ..config::factory() }, x: None, y: None }));
    assert(ORDER@[32] == Key::ColorPaused);
    assert(read_upto(s, zoom, 33) == (config::Reading { settings: Settings { duration: s.duration, presets: s.presets, mode: s.mode, bg_alpha: s.bg_alpha, zoom: seq![zoom], click_through: s.click_through, clock_12h: s.clock_12h, clock_seconds: s.clock_seconds, pad: s.pad, centiseconds: s.centiseconds, tray_icon: s.tray_icon, throttle: s.throttle, gif_speed: s.gif_speed, tray_gif: s.tray_gif, work: s.work, short_break: s.short_break, long_break: s.long_break, rounds: s.rounds, cycles: s.cycles, steps: s.steps, on_finish: s.on_finish, timeout_text: s.timeout_text, notify: s.notify, notify_text: s.notify_text, alarm_sound: s.alarm_sound, alarm_volume: s.alarm_volume, text_source: s.text_source, text_font: s.text_font, font_px: s.font_px, language: s.language, color_bg: s.color_bg, running: s.running, paused: s.paused, ..config::factory() }, x: None, y: None }));
    assert(ORDER@[33] == Key::ColorDone);
    assert(read_upto(s, zoom, 34) == (config::Reading { settings: Settings { duration: s.duration, presets: s.presets, mode: s.mode, bg_alpha: s.bg_alpha, zoom: seq![zoom], click_through: s.click_through, clock_12h: s.clock_12h, clock_seconds: s.clock_seconds, pad: s.pad, centiseconds: s.centiseconds, tray_icon: s.tray_icon, throttle: s.throttle, gif_speed: s.gif_speed, tray_gif: s.tray_gif, work: s.work, short_break: s.short_break, long_break: s.long_break, rounds: s.rounds, cycles: s.cycles, steps: s.steps, on_finish: s.on_finish, timeout_text: s.timeout_text, notify: s.notify, notify_text: s.notify_text, alarm_sound: s.alarm_sound, alarm_volume: s.alarm_volume, text_source: s.text_source, text_font: s.text_font, font_px: s.font_px, language: s.language, color_bg: s.color_bg, running: s.running, paused: s.paused, done: s.done, ..config::factory() }, x: None, y: None }));
    assert(ORDER@[34] == Key::TextEffect);
    assert(read_upto(s, zoom, 35) == (config::Reading { settings: Settings { duration: s.duration, presets: s.presets, mode: s.mode, bg_alpha: s.bg_alpha, zoom: seq![zoom], click_through: s.click_through, clock_12h: s.clock_12h, clock_seconds: s.clock_seconds, pad: s.pad, centiseconds: s.centiseconds, tray_icon: s.tray_icon, throttle: s.throttle, gif_speed: s.gif_speed, tray_gif: s.tray_gif, work: s.work, short_break: s.short_break, long_break: s.long_break, rounds: s.rounds, cycles: s.cycles, steps: s.steps, on_finish: s.on_finish, timeout_text: s.timeout_text, notify: s.notify, notify_text: s.notify_text, alarm_sound: s.alarm_sound, alarm_volume: s.alarm_volume, text_source: s.text_source, text_font: s.text_font, font_px: s.font_px, language: s.language, color_bg: s.color_bg, running: s.running, paused: s.paused, done: s.done, effect: s.effect, ..config::factory() }, x: None, y: None }));
}

/// All keys are read.
proof fn lemma_all_read(s: Settings, zoom: Seq<char>)
    requires
        wf(s),
    ensures
        config::placed(read_upto(s, zoom, 37)) == (Settings { zoom: seq![zoom], ..s }),
{
    lemma_read_35(s, zoom);
    assert(ORDER@[35] == Key::WindowX && ORDER@[36] == Key::WindowY);
    assert(read_upto(s, zoom, 36).settings == read_upto(s, zoom, 35).settings);
    assert(read_upto(s, zoom, 37).settings == read_upto(s, zoom, 35).settings);
}

/// A configuration within its limits is read back from its file as it was; the zoom is what was
/// written for it.
pub proof fn law_saved_is_read_back(s: Settings, zoom: Seq<char>)
    requires
        wf(s),
        writable(zoom),
    ensures
        config::configured(saved(s, zoom)) == (Settings { zoom: seq![zoom], ..s }),
        s.zoom == seq![zoom] ==> config::configured(saved(s, zoom)) == s,
{
    let ends = seq!['\n'];
    assert(ends[0] == '\n');
    let text = text_upto(s, zoom, 37);
    let before = strings::pieces(text, ends);
    let none = Seq::<char>::empty();
    lemma_read_upto(s, zoom, 37);
    strings::lemma_pieces_append(text, '\n', none, ends);
    assert(text.push('\n') + none =~= saved(s, zoom));
    lemma_lines_before(before, none, before.len() as int);
    assert(before.push(none)[before.len() as int] == none);
    strings::lemma_trimmed(none);
    assert(config::entry(none) is None);
    lemma_all_read(s, zoom);
}

/// A zoom in hundredths as it is written: `1.75`.
pub open spec fn zoom_text(hundredths: nat) -> Seq<char> {
    strings::digits(hundredths / 100) + seq!['.'] + strings::two_digits(hundredths % 100)
}

/// A configuration within its limits whose zoom is a number of hundredths is read back from its file
/// as it was, all of it.
pub proof fn law_configuration_roundtrip(s: Settings, hundredths: nat)
    requires
        wf(s),
        s.zoom == seq![zoom_text(hundredths)],
    ensures
        config::configured(saved(s, zoom_text(hundredths))) == s,
{
    let zoom = zoom_text(hundredths);
    let (a, b) = (strings::digits(hundredths / 100), strings::digits(hundredths % 100));
    let fine = strings::two_digits(hundredths % 100);
    strings::lemma_digits(hundredths / 100);
    strings::lemma_digits(hundredths % 100);
    assert forall|i: int| 0 <= i < fine.len() implies strings::is_digit(#[trigger] fine[i]) by {
        if hundredths % 100 < 10 {
            assert(i > 0 ==> fine[i] == b[i - 1]);
        }
    }
    assert forall|i: int| 0 <= i < zoom.len() implies '!' <= #[trigger] zoom[i] <= '~' by {
        if i < a.len() {
            assert(zoom[i] == a[i] && strings::is_digit(a[i]));
        } else if i > a.len() {
            assert(zoom[i] == fine[i - a.len() - 1]);
            assert(strings::is_digit(fine[i - a.len() - 1]));
        }
    }
    lemma_printable(zoom);
    law_saved_is_read_back(s, zoom);
}

// ---- what is read is within its limits ----

proof fn lemma_trim_start(s: Seq<char>)
    ensures
        strings::trim_start(s).len() <= s.len(),
        strings::trim_start(s) == s.subrange(s.len() - strings::trim_start(s).len(), s.len() as int),
        strings::trim_start(s).len() > 0 ==> !strings::is_space(strings::trim_start(s)[0]),
    decreases s.len(),
{
    if s.len() > 0 && strings::is_space(s[0]) {
        let t = s.subrange(1, s.len() as int);
        lemma_trim_start(t);
        let n = strings::trim_start(t).len() as int;
        assert(t.subrange(t.len() - n, t.len() as int) =~= s.subrange(s.len() - n, s.len() as int));
    } else {
        assert(s.subrange(0, s.len() as int) =~= s);
    }
}

proof fn lemma_trim_end(s: Seq<char>)
    ensures
        strings::trim_end(s).len() <= s.len(),
        strings::trim_end(s) == s.subrange(0, strings::trim_end(s).len() as int),
        strings::trim_end(s).len() > 0 ==> !strings::is_space(strings::trim_end(s).last()),
    decreases s.len(),
{
    if s.len() > 0 && strings::is_space(s.last()) {
        lemma_trim_end(s.drop_last());
        let n = strings::trim_end(s.drop_last()).len() as int;
        assert(s.drop_last().subrange(0, n) =~= s.subrange(0, n));
    } else {
        assert(s.subrange(0, s.len() as int) =~= s);
    }
}

/// What is left without the white space around it can stand as a value.
proof fn lemma_trimmed_writable(s: Seq<char>)
    requires
        strings::free_of(s, seq!['\n']),
    ensures
        strings::trimmed(s).len() > 0 ==> writable(strings::trimmed(s)),
        strings::free_of(strings::trimmed(s), seq!['\n']),
{
    let a = strings::trim_start(s);
    let b = strings::trim_end(a);
    lemma_trim_start(s);
    lemma_trim_end(a);
    assert forall|i: int| 0 <= i < b.len() implies !seq!['\n'].contains(#[trigger] b[i]) by {
        assert(b[i] == a[i]);
        assert(a[i] == s[s.len() - a.len() + i]);
    }
    if b.len() > 0 {
        assert(b[0] == a[0]);
    }
}

/// A piece between separators holds none.
proof fn lemma_piece_is_free(s: Seq<char>, seps: Seq<char>, i: int)
    requires
        0 <= i < strings::pieces(s, seps).len(),
    ensures
        strings::free_of(strings::pieces(s, seps)[i], seps),
    decreases s.len(),
{
    if s.len() > 0 {
        let front = strings::pieces(s.drop_last(), seps);
        strings::lemma_pieces_nonempty(s.drop_last(), seps);
        if seps.contains(s.last()) {
            if i < front.len() {
                lemma_piece_is_free(s.drop_last(), seps, i);
            }
        } else {
            lemma_piece_is_free(s.drop_last(), seps, i);
        }
    }
}

proof fn lemma_entry_writable(line: Seq<char>, key: Key, v: Seq<char>)
    requires
        strings::free_of(line, seq!['\n']),
        config::entry(line) == Some((key, v)),
    ensures
        v.len() > 0 ==> writable(v),
{
    let t = strings::trimmed(line);
    lemma_trimmed_writable(line);
    let at = strings::index_from(t, '=', 0);
    let rest = t.subrange(at + 1, t.len() as int);
    lemma_index_in(t, '=', 0);
    assert forall|i: int| 0 <= i < rest.len() implies !seq!['\n'].contains(#[trigger] rest[i]) by {
        assert(rest[i] == t[at + 1 + i]);
    }
    lemma_trimmed_writable(rest);
}

proof fn lemma_index_in(s: Seq<char>, c: char, i: int)
    requires
        0 <= i <= s.len(),
    ensures
        i <= strings::index_from(s, c, i) <= s.len(),
    decreases s.len() - i,
{
    if i < s.len() && s[i] != c {
        lemma_index_in(s, c, i + 1);
    }
}

proof fn lemma_stops_bound(pieces: Seq<Seq<char>>)
    ensures
        effect::stops_of(pieces) matches Some(stops) ==> stops.len() == pieces.len() && forall|i: int|
            0 <= i < stops.len() ==> #[trigger] stops[i] <= 0xff_ffff,
    decreases pieces.len(),
{
    if pieces.len() > 0 {
        lemma_stops_bound(pieces.drop_last());
        render::law_color_is_opaque(pieces.last());
    }
}

proof fn lemma_gradient_writable(v: Seq<char>)
    ensures
        effect::gradient(v) matches Some(stops) ==> writable_colors(stops),
{
    lemma_stops_bound(strings::pieces(v, seq!['_']));
    strings::lemma_pieces_nonempty(v, seq!['_']);
}

proof fn lemma_spans_bound(words: Seq<Seq<char>>)
    ensures
        config::spans_of(words) matches Some(list) ==> forall|i: int|
            0 <= i < list.len() ==> 0 < #[trigger] list[i] <= config::MAX_SPAN,
    decreases words.len(),
{
    if words.len() > 0 {
        lemma_spans_bound(words.drop_last());
    }
}

proof fn lemma_factory()
    ensures
        wf(config::factory()),
{
    let p = config::DEFAULT_PRESETS@;
    assert(p.len() == 6);
    assert(forall|i: int| 0 <= i < 6 ==> 0 < #[trigger] p[i] <= config::MAX_SPAN);
}

proof fn lemma_kept_choice(st: Settings, key: Key, v: Seq<char>)
    requires
        wf(st),
        v.len() > 0 ==> writable(v),
        key == Key::Mode || key == Key::TrayIcon || key == Key::ClickThrough || key == Key::Clock12h || key == Key::ClockSeconds || key == Key::Centiseconds || key == Key::Notify || key == Key::TimePad || key == Key::TextEffect || key == Key::Duration || key == Key::BgAlpha || key == Key::AlarmVolume || key == Key::StatusFontPx || key == Key::Language || key == Key::TrayThrottle || key == Key::TrayGifSpeed,
    ensures
        wf(config::applied(st, key, v)),
        config::applied(st, key, v).place == st.place,
{
    reveal(config::applied);
}

proof fn lemma_kept_length(st: Settings, key: Key, v: Seq<char>)
    requires
        wf(st),
        v.len() > 0 ==> writable(v),
        key == Key::PomoWork || key == Key::PomoBreak || key == Key::PomoLongBreak || key == Key::PomoRounds || key == Key::PomoCycles,
    ensures
        wf(config::applied(st, key, v)),
        config::applied(st, key, v).place == st.place,
{
    reveal(config::applied);
}

proof fn lemma_kept_list(st: Settings, key: Key, v: Seq<char>)
    requires
        wf(st),
        v.len() > 0 ==> writable(v),
        key == Key::Presets || key == Key::PomoSeq,
    ensures
        wf(config::applied(st, key, v)),
        config::applied(st, key, v).place == st.place,
{
    reveal(config::applied);
    lemma_spans_bound(strings::words(v, config::list_separators()));
}

proof fn lemma_kept_text(st: Settings, key: Key, v: Seq<char>)
    requires
        wf(st),
        v.len() > 0 ==> writable(v),
        key == Key::TrayGif || key == Key::Zoom || key == Key::OnFinish || key == Key::TimeoutText || key == Key::NotifyText || key == Key::TextSource || key == Key::TextFont || key == Key::AlarmSound,
    ensures
        wf(config::applied(st, key, v)),
        config::applied(st, key, v).place == st.place,
{
    reveal(config::applied);
}

proof fn lemma_kept_color(st: Settings, key: Key, v: Seq<char>)
    requires
        wf(st),
        v.len() > 0 ==> writable(v),
        key == Key::ColorBg || key == Key::ColorRunning || key == Key::ColorPaused || key == Key::ColorDone,
    ensures
        wf(config::applied(st, key, v)),
        config::applied(st, key, v).place == st.place,
{
    reveal(config::applied);
    render::law_color_is_opaque(v);
    lemma_gradient_writable(v);
}

/// No value that is read takes a configuration beyond its limits.
proof fn lemma_kept(st: Settings, key: Key, v: Seq<char>)
    requires
        wf(st),
        v.len() > 0 ==> writable(v),
        key != Key::WindowX,
        key != Key::WindowY,
    ensures
        wf(config::applied(st, key, v)),
{
    match key {
        Key::Mode => lemma_kept_choice(st, key, v),
        Key::TrayIcon => lemma_kept_choice(st, key, v),
        Key::ClickThrough => lemma_kept_choice(st, key, v),
        Key::Clock12h => lemma_kept_choice(st, key, v),
        Key::ClockSeconds => lemma_kept_choice(st, key, v),
        Key::Centiseconds => lemma_kept_choice(st, key, v),
        Key::Notify => lemma_kept_choice(st, key, v),
        Key::TimePad => lemma_kept_choice(st, key, v),
        Key::TextEffect => lemma_kept_choice(st, key, v),
        Key::Duration => lemma_kept_choice(st, key, v),
        Key::BgAlpha => lemma_kept_choice(st, key, v),
        Key::PomoWork => lemma_kept_length(st, key, v),
        Key::PomoBreak => lemma_kept_length(st, key, v),
        Key::PomoLongBreak => lemma_kept_length(st, key, v),
        Key::PomoRounds => lemma_kept_length(st, key, v),
        Key::PomoCycles => lemma_kept_length(st, key, v),
        Key::Presets => lemma_kept_list(st, key, v),
        Key::PomoSeq => lemma_kept_list(st, key, v),
        Key::AlarmVolume => lemma_kept_choice(st, key, v),
        Key::TrayThrottle => lemma_kept_choice(st, key, v),
        Key::TrayGifSpeed => lemma_kept_choice(st, key, v),
        Key::StatusFontPx => lemma_kept_choice(st, key, v),
        Key::Language => lemma_kept_choice(st, key, v),
        Key::AlarmSound => lemma_kept_text(st, key, v),
        Key::TrayGif => lemma_kept_text(st, key, v),
        Key::Zoom => lemma_kept_text(st, key, v),
        Key::OnFinish => lemma_kept_text(st, key, v),
        Key::TimeoutText => lemma_kept_text(st, key, v),
        Key::NotifyText => lemma_kept_text(st, key, v),
        Key::TextSource => lemma_kept_text(st, key, v),
        Key::TextFont => lemma_kept_text(st, key, v),
        Key::ColorBg => lemma_kept_color(st, key, v),
        Key::ColorRunning => lemma_kept_color(st, key, v),
        Key::ColorPaused => lemma_kept_color(st, key, v),
        Key::ColorDone => lemma_kept_color(st, key, v),
        Key::WindowX | Key::WindowY => {},
    }
}

proof fn lemma_lines_kept(lines: Seq<Seq<char>>, n: int)
    requires
        0 <= n <= lines.len(),
        forall|i: int| 0 <= i < lines.len() ==> strings::free_of(#[trigger] lines[i], seq!['\n']),
    ensures
        wf(config::after_lines(lines, n).settings),
    decreases n,
{
    if n == 0 {
        lemma_factory();
    } else {
        lemma_lines_kept(lines, n - 1);
        let before = config::after_lines(lines, n - 1);
        match config::entry(lines[n - 1]) {
            Some((key, v)) => {
                assert(strings::free_of(lines[n - 1], seq!['\n']));
                lemma_entry_writable(lines[n - 1], key, v);
                if key != Key::WindowX && key != Key::WindowY {
                    lemma_kept(before.settings, key, v);
                }
            },
            None => {},
        }
    }
}

/// Whatever a file holds, what it configures is within its limits.
pub proof fn law_read_is_within_limits(text: Seq<char>)
    ensures
        wf(config::configured(text)),
{
    let ends = seq!['\n'];
    let lines = strings::pieces(text, ends);
    assert forall|i: int| 0 <= i < lines.len() implies strings::free_of(#[trigger] lines[i], ends) by {
        lemma_piece_is_free(text, ends, i);
    }
    lemma_lines_kept(lines, lines.len() as int);
}

/// A file that is read and written again configures the same.
pub proof fn law_saving_what_was_read_changes_nothing(text: Seq<char>, zoom: Seq<char>)
    requires
        writable(zoom),
    ensures
        config::configured(saved(config::configured(text), zoom)) == (Settings {
            zoom: seq![zoom],
            ..config::configured(text)
        }),
{
    law_read_is_within_limits(text);
    law_saved_is_read_back(config::configured(text), zoom);
}

} // verus!
