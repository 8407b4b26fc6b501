//! The configuration: lines of `key = value`, with `#` before a comment. A key that is not known and
//! a value that cannot be read leave things as they are.
use crate::effect;
use crate::effect::{Effect, Gradient};
use crate::lang;
use crate::anim;
use crate::anim::Throttle;
use crate::lang::Language;
use crate::parse;
use crate::parse::{parse_duration, parse_duration_chars};
use crate::render;
use crate::render::{parse_color, Pad};
use crate::strings;
use crate::strings::{
    chars_of, index_of, lower_all, parse_i32, parse_upto, push_number, same, split,
    split_words, string_of, trim,
};
use crate::text::TTF_PX_PER_CELL;
use crate::timer;
use crate::timer::{Mode, Pomo, MAX_POMO_STEPS};
use crate::tray;
use crate::tray::IconMode;
use vstd::prelude::*;

verus! {

/// The longest of a length, in seconds: a day.
pub const MAX_SPAN: u32 = 86_400;

/// How many presets there may be.
pub const MAX_PRESETS: usize = 24;

/// The least and the most that `Config::tray_gif_speed` may be.
pub const MIN_GIF_SPEED: u32 = 10;

pub const MAX_GIF_SPEED: u32 = 200;

/// The least and the most that `Config::status_font_px` may be.
pub const MIN_FONT_PX: u32 = 8;

pub const MAX_FONT_PX: u32 = 24;

/// How many rounds and sets a pomodoro may have.
pub const MAX_ROUNDS: u32 = 100;

/// The presets that come with it, in seconds.
pub const DEFAULT_PRESETS: [u32; 6] = [60, 300, 900, 1500, 2700, 3600];

/// A key of the configuration.
#[derive(Clone, Copy, Debug, PartialEq, Eq, Structural)]
pub enum Key {
    Duration,
    Mode,
    TrayIcon,
    TrayGif,
    TrayThrottle,
    TrayGifSpeed,
    BgAlpha,
    Zoom,
    ClickThrough,
    Clock12h,
    ClockSeconds,
    Centiseconds,
    Notify,
    TimePad,
    Presets,
    PomoWork,
    PomoBreak,
    PomoLongBreak,
    PomoRounds,
    PomoCycles,
    PomoSeq,
    OnFinish,
    TimeoutText,
    NotifyText,
    AlarmSound,
    AlarmVolume,
    TextSource,
    TextFont,
    StatusFontPx,
    Language,
    ColorBg,
    ColorRunning,
    ColorPaused,
    ColorDone,
    TextEffect,
    WindowX,
    WindowY,
}

impl Key {
    /// The name of the key.
    pub open spec fn text(self) -> Seq<char> {
        match self {
            Key::Duration => "duration"@,
            Key::Mode => "mode"@,
            Key::TrayIcon => "tray_icon"@,
            Key::TrayGif => "tray_gif"@,
            Key::TrayThrottle => "tray_throttle"@,
            Key::TrayGifSpeed => "tray_gif_speed"@,
            Key::BgAlpha => "bg_alpha"@,
            Key::Zoom => "zoom"@,
            Key::ClickThrough => "click_through"@,
            Key::Clock12h => "clock_12h"@,
            Key::ClockSeconds => "clock_seconds"@,
            Key::Centiseconds => "centiseconds"@,
            Key::Notify => "notify"@,
            Key::TimePad => "time_pad"@,
            Key::Presets => "presets"@,
            Key::PomoWork => "pomo_work"@,
            Key::PomoBreak => "pomo_break"@,
            Key::PomoLongBreak => "pomo_long_break"@,
            Key::PomoRounds => "pomo_rounds"@,
            Key::PomoCycles => "pomo_cycles"@,
            Key::PomoSeq => "pomo_seq"@,
            Key::OnFinish => "on_finish"@,
            Key::TimeoutText => "timeout_text"@,
            Key::NotifyText => "notify_text"@,
            Key::AlarmSound => "alarm_sound"@,
            Key::AlarmVolume => "alarm_volume"@,
            Key::TextSource => "text_source"@,
            Key::TextFont => "text_font"@,
            Key::StatusFontPx => "status_font_px"@,
            Key::Language => "language"@,
            Key::ColorBg => "color_bg"@,
            Key::ColorRunning => "color_running"@,
            Key::ColorPaused => "color_paused"@,
            Key::ColorDone => "color_done"@,
            Key::TextEffect => "text_effect"@,
            Key::WindowX => "window_x"@,
            Key::WindowY => "window_y"@,
        }
    }

    /// The length of the name, its last character and the one before: no two keys share them.
    spec fn mark(self) -> (nat, char, char) {
        match self {
            Key::Duration => (8, 'n', 'o'),
            Key::Mode => (4, 'e', 'd'),
            Key::TrayIcon => (9, 'n', 'o'),
            Key::TrayGif => (8, 'f', 'i'),
            Key::TrayThrottle => (13, 'e', 'l'),
            Key::TrayGifSpeed => (14, 'd', 'e'),
            Key::BgAlpha => (8, 'a', 'h'),
            Key::Zoom => (4, 'm', 'o'),
            Key::ClickThrough => (13, 'h', 'g'),
            Key::Clock12h => (9, 'h', '2'),
            Key::ClockSeconds => (13, 's', 'd'),
            Key::Centiseconds => (12, 's', 'd'),
            Key::Notify => (6, 'y', 'f'),
            Key::TimePad => (8, 'd', 'a'),
            Key::Presets => (7, 's', 't'),
            Key::PomoWork => (9, 'k', 'r'),
            Key::PomoBreak => (10, 'k', 'a'),
            Key::PomoLongBreak => (15, 'k', 'a'),
            Key::PomoRounds => (11, 's', 'd'),
            Key::PomoCycles => (11, 's', 'e'),
            Key::PomoSeq => (8, 'q', 'e'),
            Key::OnFinish => (9, 'h', 's'),
            Key::TimeoutText => (12, 't', 'x'),
            Key::NotifyText => (11, 't', 'x'),
            Key::AlarmSound => (11, 'd', 'n'),
            Key::AlarmVolume => (12, 'e', 'm'),
            Key::TextSource => (11, 'e', 'c'),
            Key::TextFont => (9, 't', 'n'),
            Key::StatusFontPx => (14, 'x', 'p'),
            Key::Language => (8, 'e', 'g'),
            Key::ColorBg => (8, 'g', 'b'),
            Key::ColorRunning => (13, 'g', 'n'),
            Key::ColorPaused => (12, 'd', 'e'),
            Key::ColorDone => (10, 'e', 'n'),
            Key::TextEffect => (11, 't', 'c'),
            Key::WindowX => (8, 'x', '_'),
            Key::WindowY => (8, 'y', '_'),
        }
    }

    /// The name of the key.
    pub fn name(self) -> (r: &'static str)
        ensures
            r@ == self.text(),
    {
        match self {
            Key::Duration => "duration",
            Key::Mode => "mode",
            Key::TrayIcon => "tray_icon",
            Key::TrayGif => "tray_gif",
            Key::TrayThrottle => "tray_throttle",
            Key::TrayGifSpeed => "tray_gif_speed",
            Key::BgAlpha => "bg_alpha",
            Key::Zoom => "zoom",
            Key::ClickThrough => "click_through",
            Key::Clock12h => "clock_12h",
            Key::ClockSeconds => "clock_seconds",
            Key::Centiseconds => "centiseconds",
            Key::Notify => "notify",
            Key::TimePad => "time_pad",
            Key::Presets => "presets",
            Key::PomoWork => "pomo_work",
            Key::PomoBreak => "pomo_break",
            Key::PomoLongBreak => "pomo_long_break",
            Key::PomoRounds => "pomo_rounds",
            Key::PomoCycles => "pomo_cycles",
            Key::PomoSeq => "pomo_seq",
            Key::OnFinish => "on_finish",
            Key::TimeoutText => "timeout_text",
            Key::NotifyText => "notify_text",
            Key::AlarmSound => "alarm_sound",
            Key::AlarmVolume => "alarm_volume",
            Key::TextSource => "text_source",
            Key::TextFont => "text_font",
            Key::StatusFontPx => "status_font_px",
            Key::Language => "language",
            Key::ColorBg => "color_bg",
            Key::ColorRunning => "color_running",
            Key::ColorPaused => "color_paused",
            Key::ColorDone => "color_done",
            Key::TextEffect => "text_effect",
            Key::WindowX => "window_x",
            Key::WindowY => "window_y",
        }
    }

    /// The key with this name.
    pub fn from_name(s: &str) -> (r: Option<Key>)
        ensures
            r == key_named(s@),
    {
        let all: [Key; 37] = [
            Key::Duration,
            Key::Mode,
            Key::TrayIcon,
            Key::TrayGif,
            Key::TrayThrottle,
            Key::TrayGifSpeed,
            Key::BgAlpha,
            Key::Zoom,
            Key::ClickThrough,
            Key::Clock12h,
            Key::ClockSeconds,
            Key::Centiseconds,
            Key::Notify,
            Key::TimePad,
            Key::Presets,
            Key::PomoWork,
            Key::PomoBreak,
            Key::PomoLongBreak,
            Key::PomoRounds,
            Key::PomoCycles,
            Key::PomoSeq,
            Key::OnFinish,
            Key::TimeoutText,
            Key::NotifyText,
            Key::AlarmSound,
            Key::AlarmVolume,
            Key::TextSource,
            Key::TextFont,
            Key::StatusFontPx,
            Key::Language,
            Key::ColorBg,
            Key::ColorRunning,
            Key::ColorPaused,
            Key::ColorDone,
            Key::TextEffect,
            Key::WindowX,
            Key::WindowY,
        ];
        let mut i: usize = 0;
        while i < 37
            invariant
                i <= 37,
                all@ == seq![
                    Key::Duration,
                    Key::Mode,
                    Key::TrayIcon,
                    Key::TrayGif,
                    Key::TrayThrottle,
                    Key::TrayGifSpeed,
                    Key::BgAlpha,
                    Key::Zoom,
                    Key::ClickThrough,
                    Key::Clock12h,
                    Key::ClockSeconds,
                    Key::Centiseconds,
                    Key::Notify,
                    Key::TimePad,
                    Key::Presets,
                    Key::PomoWork,
                    Key::PomoBreak,
                    Key::PomoLongBreak,
                    Key::PomoRounds,
                    Key::PomoCycles,
                    Key::PomoSeq,
                    Key::OnFinish,
                    Key::TimeoutText,
                    Key::NotifyText,
                    Key::AlarmSound,
                    Key::AlarmVolume,
                    Key::TextSource,
                    Key::TextFont,
                    Key::StatusFontPx,
                    Key::Language,
                    Key::ColorBg,
                    Key::ColorRunning,
                    Key::ColorPaused,
                    Key::ColorDone,
                    Key::TextEffect,
                    Key::WindowX,
                    Key::WindowY,
                ],
                forall|j: int| 0 <= j < i ==> (#[trigger] all@[j]).text() != s@,
            decreases 37 - i,
        {
            if same(s, all[i].name()) {
                proof {
                    lemma_key_is(all@[i as int]);
                }
                return Some(all[i]);
            }
            i = i + 1;
        }
        assert forall|k: Key| (#[trigger] k.text()) != s@ by {
            match k {
                Key::Duration => assert(all@[0] == k),
                Key::Mode => assert(all@[1] == k),
                Key::TrayIcon => assert(all@[2] == k),
                Key::TrayGif => assert(all@[3] == k),
                Key::TrayThrottle => assert(all@[4] == k),
                Key::TrayGifSpeed => assert(all@[5] == k),
                Key::BgAlpha => assert(all@[6] == k),
                Key::Zoom => assert(all@[7] == k),
                Key::ClickThrough => assert(all@[8] == k),
                Key::Clock12h => assert(all@[9] == k),
                Key::ClockSeconds => assert(all@[10] == k),
                Key::Centiseconds => assert(all@[11] == k),
                Key::Notify => assert(all@[12] == k),
                Key::TimePad => assert(all@[13] == k),
                Key::Presets => assert(all@[14] == k),
                Key::PomoWork => assert(all@[15] == k),
                Key::PomoBreak => assert(all@[16] == k),
                Key::PomoLongBreak => assert(all@[17] == k),
                Key::PomoRounds => assert(all@[18] == k),
                Key::PomoCycles => assert(all@[19] == k),
                Key::PomoSeq => assert(all@[20] == k),
                Key::OnFinish => assert(all@[21] == k),
                Key::TimeoutText => assert(all@[22] == k),
                Key::NotifyText => assert(all@[23] == k),
                Key::AlarmSound => assert(all@[24] == k),
                Key::AlarmVolume => assert(all@[25] == k),
                Key::TextSource => assert(all@[26] == k),
                Key::TextFont => assert(all@[27] == k),
                Key::StatusFontPx => assert(all@[28] == k),
                Key::Language => assert(all@[29] == k),
                Key::ColorBg => assert(all@[30] == k),
                Key::ColorRunning => assert(all@[31] == k),
                Key::ColorPaused => assert(all@[32] == k),
                Key::ColorDone => assert(all@[33] == k),
                Key::TextEffect => assert(all@[34] == k),
                Key::WindowX => assert(all@[35] == k),
                Key::WindowY => assert(all@[36] == k),
            }
        }
        None
    }
}

/// The key with this name.
pub open spec fn key_named(s: Seq<char>) -> Option<Key> {
    if exists|k: Key| #[trigger] k.text() == s {
        Some(choose|k: Key| #[trigger] k.text() == s)
    } else {
        None
    }
}

proof fn lemma_mark(k: Key)
    ensures
        k.text().len() == k.mark().0,
        k.text().len() >= 4,
        k.text().last() == k.mark().1,
        k.text()[k.text().len() - 2] == k.mark().2,
        strings::free_of(k.text(), seq!['=', '\n', '#']),
        !strings::is_space(k.text()[0]),
        !strings::is_space(k.text().last()),
{
    match k {
        Key::Duration => reveal_strlit("duration"),
        Key::Mode => reveal_strlit("mode"),
        Key::TrayIcon => reveal_strlit("tray_icon"),
        Key::TrayGif => reveal_strlit("tray_gif"),
        Key::TrayThrottle => reveal_strlit("tray_throttle"),
        Key::TrayGifSpeed => reveal_strlit("tray_gif_speed"),
        Key::BgAlpha => reveal_strlit("bg_alpha"),
        Key::Zoom => reveal_strlit("zoom"),
        Key::ClickThrough => reveal_strlit("click_through"),
        Key::Clock12h => reveal_strlit("clock_12h"),
        Key::ClockSeconds => reveal_strlit("clock_seconds"),
        Key::Centiseconds => reveal_strlit("centiseconds"),
        Key::Notify => reveal_strlit("notify"),
        Key::TimePad => reveal_strlit("time_pad"),
        Key::Presets => reveal_strlit("presets"),
        Key::PomoWork => reveal_strlit("pomo_work"),
        Key::PomoBreak => reveal_strlit("pomo_break"),
        Key::PomoLongBreak => reveal_strlit("pomo_long_break"),
        Key::PomoRounds => reveal_strlit("pomo_rounds"),
        Key::PomoCycles => reveal_strlit("pomo_cycles"),
        Key::PomoSeq => reveal_strlit("pomo_seq"),
        Key::OnFinish => reveal_strlit("on_finish"),
        Key::TimeoutText => reveal_strlit("timeout_text"),
        Key::NotifyText => reveal_strlit("notify_text"),
        Key::AlarmSound => reveal_strlit("alarm_sound"),
        Key::AlarmVolume => reveal_strlit("alarm_volume"),
        Key::TextSource => reveal_strlit("text_source"),
        Key::TextFont => reveal_strlit("text_font"),
        Key::StatusFontPx => reveal_strlit("status_font_px"),
        Key::Language => reveal_strlit("language"),
        Key::ColorBg => reveal_strlit("color_bg"),
        Key::ColorRunning => reveal_strlit("color_running"),
        Key::ColorPaused => reveal_strlit("color_paused"),
        Key::ColorDone => reveal_strlit("color_done"),
        Key::TextEffect => reveal_strlit("text_effect"),
        Key::WindowX => reveal_strlit("window_x"),
        Key::WindowY => reveal_strlit("window_y"),
    }
    assert forall|i: int| 0 <= i < k.text().len() implies !seq!['=', '\n', '#'].contains(
        #[trigger] k.text()[i],
    ) by {
        let c = k.text()[i];
        assert('a' <= c <= 'z' || c == '_' || '0' <= c <= '9');
    }
}

/// The name of a key holds neither a sign of the file nor white space at its ends.
pub proof fn lemma_key_shape(k: Key)
    ensures
        k.text().len() > 0,
        strings::free_of(k.text(), seq!['=', '\n', '#']),
        !strings::is_space(k.text()[0]),
        !strings::is_space(k.text().last()),
{
    lemma_mark(k);
}

/// A key is found again by its name.
pub proof fn lemma_key_is(k: Key)
    ensures
        key_named(k.text()) == Some(k),
{
    let other = choose|o: Key| #[trigger] o.text() == k.text();
    lemma_mark(k);
    lemma_mark(other);
}

// ---- lists and labels ----

/// The lengths that the words write, each from a second to a day; `None` where one is not.
pub open spec fn spans_of(words: Seq<Seq<char>>) -> Option<Seq<u32>>
    decreases words.len(),
{
    if words.len() == 0 {
        Some(Seq::empty())
    } else {
        match (spans_of(words.drop_last()), parse::duration(words.last())) {
            (Some(before), Some(n)) => if 0 < n <= MAX_SPAN {
                Some(before.push(n))
            } else {
                None
            },
            _ => None,
        }
    }
}

/// What may stand between two lengths.
pub open spec fn list_separators() -> Seq<char> {
    seq![',', ' ', '\t']
}

/// The lengths that `value` writes, at most `max` of them: all of them are good, or there are none.
pub open spec fn length_list(value: Seq<char>, max: int) -> Option<Seq<u32>> {
    match spans_of(strings::words(value, list_separators())) {
        Some(list) => if 1 <= list.len() <= max {
            Some(list)
        } else {
            None
        },
        None => None,
    }
}

/// The presets that `value` writes.
pub open spec fn preset_list(value: Seq<char>) -> Option<Seq<u32>> {
    length_list(value, MAX_PRESETS as int)
}

/// The steps of a pomodoro that `value` writes; none at all, where it is empty.
pub open spec fn step_list(value: Seq<char>) -> Option<Seq<u32>> {
    if value.len() == 0 {
        Some(Seq::empty())
    } else {
        length_list(value, MAX_POMO_STEPS as int)
    }
}

proof fn lemma_spans_none(words: Seq<Seq<char>>, n: int)
    requires
        0 < n <= words.len(),
        spans_of(words.take(n)) is None,
    ensures
        spans_of(words) is None,
    decreases words.len() - n,
{
    if n < words.len() {
        assert(words.take(n + 1).drop_last() =~= words.take(n));
        lemma_spans_none(words, n + 1);
    } else {
        assert(words.take(n) =~= words);
    }
}

/// The lengths that `value` writes, with commas or spaces between them. One that is no length from a
/// second to a day makes all of them void, and so do more than there may be.
fn parse_lengths(value: &str, max: usize) -> (r: Option<Vec<u32>>)
    ensures
        match r {
            Some(list) => length_list(value@, max as int) == Some(list@),
            None => length_list(value@, max as int) is None,
        },
{
    let seps: [char; 3] = [',', ' ', '\t'];
    assert(seps@ =~= list_separators());
    let all = split_words(&chars_of(value), &seps);
    let ghost words = strings::rows(all@);
    let mut out: Vec<u32> = Vec::new();
    let mut i: usize = 0;
    assert(words.take(0).len() == 0);
    assert(out@ =~= Seq::<u32>::empty());
    while i < all.len()
        invariant
            i <= all@.len(),
            words == strings::rows(all@),
            words == strings::words(value@, list_separators()),
            spans_of(words.take(i as int)) == Some(out@),
            out@.len() == i,
        decreases all@.len() - i,
    {
        proof {
            assert(words.take(i + 1).drop_last() =~= words.take(i as int));
            assert(words.take(i + 1).last() == all@[i as int]@);
        }
        match parse_duration_chars(&all[i]) {
            Some(n) => {
                if n == 0 || n > MAX_SPAN {
                    proof {
                        lemma_spans_none(words, i + 1);
                    }
                    return None;
                }
                out.push(n);
            },
            None => {
                proof {
                    lemma_spans_none(words, i + 1);
                }
                return None;
            },
        }
        i = i + 1;
    }
    assert(words.take(words.len() as int) =~= words);
    if out.len() == 0 || out.len() > max {
        return None;
    }
    Some(out)
}

/// The presets that `value` writes.
pub fn parse_preset_list(value: &str) -> (r: Option<Vec<u32>>)
    ensures
        match r {
            Some(list) => preset_list(value@) == Some(list@),
            None => preset_list(value@) is None,
        },
{
    parse_lengths(value, MAX_PRESETS)
}

/// The steps of a pomodoro that `value` writes, by the rules of the presets. An empty value goes
/// back to the rhythm of work and breaks.
pub fn parse_step_list(value: &str) -> (r: Option<Vec<u32>>)
    ensures
        match r {
            Some(list) => step_list(value@) == Some(list@),
            None => step_list(value@) is None,
        },
{
    if chars_of(value).len() == 0 {
        let none: Vec<u32> = Vec::new();
        assert(none@ =~= Seq::<u32>::empty());
        return Some(none);
    }
    parse_lengths(value, MAX_POMO_STEPS)
}

/// The length that `value` writes, from `min` to a day.
pub open spec fn span(value: Seq<char>, min: u32) -> Option<u32> {
    match parse::duration(value) {
        Some(n) => if min <= n <= MAX_SPAN {
            Some(n)
        } else {
            None
        },
        None => None,
    }
}

/// The length that `value` writes, from `min` to a day.
pub fn parse_span(value: &str, min: u32) -> (r: Option<u32>)
    ensures
        r == span(value@, min),
{
    match parse_duration(value) {
        Some(n) => if min <= n && n <= MAX_SPAN {
            Some(n)
        } else {
            None
        },
        None => None,
    }
}

/// The label of a length: its hours, minutes and seconds, without those that are zero.
pub open spec fn label_text(secs: u32) -> Seq<char> {
    let (h, m, s) = ((secs / 3600) as nat, (secs % 3600 / 60) as nat, (secs % 60) as nat);
    let hours = strings::digits(h) + " 小时"@;
    let minutes = strings::digits(m) + " 分"@;
    let seconds = strings::digits(s) + " 秒"@;
    let up_to_minutes = if h > 0 && m > 0 {
        hours + " "@ + minutes
    } else if h > 0 {
        hours
    } else if m > 0 {
        minutes
    } else {
        Seq::empty()
    };
    if h == 0 && m == 0 {
        seconds
    } else if s > 0 {
        up_to_minutes + " "@ + seconds
    } else {
        up_to_minutes
    }
}

/// The label of a length, such as `1 小时 30 分`.
pub fn preset_label(secs: u32) -> (r: String)
    ensures
        r@ == label_text(secs),
{
    let (h, m, s): (u32, u32, u32) = (secs / 3600, secs % 3600 / 60, secs % 60);
    let mut out = String::new();
    if h > 0 {
        push_number(&mut out, h as u64);
        out.append(" 小时");
    }
    if m > 0 {
        if h > 0 {
            out.append(" ");
        }
        push_number(&mut out, m as u64);
        out.append(" 分");
    }
    if s > 0 || (h == 0 && m == 0) {
        if h > 0 || m > 0 {
            out.append(" ");
        }
        push_number(&mut out, s as u64);
        out.append(" 秒");
    }
    assert(out@ =~= label_text(secs));
    out
}

/// Colors for the digits, to choose from.
pub const COLOR_OPTIONS: [&'static str; 30] = [
    "#FFFFFF",
    "#E3E3E5",
    "#000000",
    "#FF5F5F",
    "#F6ABB7",
    "#FB7FA4",
    "#F59E0B",
    "#22C55E",
    "#8771C6",
    "#FF9A9E_#FECFEF",
    "#FEA5B7_#FFDE9B",
    "#A8EDEA_#FED6E3",
    "#D299C2_#FEF9D7",
    "#FF9966_#FF5E62",
    "#ED4264_#FFEDBC",
    "#F6D365_#FDA085",
    "#FFE985_#FA742B",
    "#FF9A56_#56CCBA",
    "#10BD92_#8CE442",
    "#11998E_#38EF7D",
    "#43E97B_#38F9D7",
    "#FFFFFF_#00FFFF",
    "#89F7FE_#66A6FF",
    "#00C9FF_#92FE9D",
    "#648CFF_#64DC78",
    "#1F92A9_#EEE0D5",
    "#8E9EF3_#F774A0",
    "#FF5E96_#56C6FF",
    "#30CFD0_#330867",
    "#FFA745_#FE869F_#EF7AC8_#A083ED_#43AEFF",
];

/// The label of the first `n` characters of a color: without `#`, and with an arrow for `_`.
pub open spec fn color_label_text(s: Seq<char>, n: int) -> Seq<char>
    decreases n,
{
    if n <= 0 {
        Seq::empty()
    } else if s[n - 1] == '#' {
        color_label_text(s, n - 1)
    } else if s[n - 1] == '_' {
        color_label_text(s, n - 1).push('→')
    } else {
        color_label_text(s, n - 1).push(s[n - 1])
    }
}

/// The label of a color: without `#`, and with an arrow for `_`.
pub fn color_label(value: &str) -> (r: String)
    ensures
        r@ == color_label_text(value@, value@.len() as int),
{
    let s = chars_of(value);
    let mut out = String::new();
    let mut i: usize = 0;
    assert(out@ =~= Seq::<char>::empty());
    while i < s.len()
        invariant
            i <= s@.len(),
            s@ == value@,
            out@ == color_label_text(s@, i as int),
        decreases s@.len() - i,
    {
        if s[i] == '_' {
            out.push('→');
        } else if s[i] != '#' {
            out.push(s[i]);
        }
        i = i + 1;
    }
    out
}

/// Four colors that go together.
pub struct Palette {
    pub name: &'static str,
    pub bg: u32,
    pub running: u32,
    pub paused: u32,
    pub done: u32,
}

/// The palettes: the name, and the colors of the background and of the digits while the timer runs,
/// is paused and is done. The first is what comes with it.
pub const PALETTES: [(&'static str, u32, u32, u32, u32); 6] = [
    ("默认", 0x0f0f14, 0xffffff, 0xffc850, 0x50dc78),
    ("海洋", 0x0a1420, 0x9ad4ff, 0x5aa9ff, 0x7cf0c4),
    ("落日", 0x1a0f0a, 0xffd28a, 0xff9e3d, 0xff5c7a),
    ("紫罗兰", 0x140a18, 0xe0b3ff, 0xb366ff, 0x66ffb3),
    ("高对比", 0x000000, 0xffffff, 0xffff00, 0x00ff00),
    ("纸白", 0xf2f0eb, 0x1a1a1a, 0x8a6d1a, 0x1f6f32),
];

/// The palette `i`, if there is one.
pub fn palette(i: usize) -> (r: Option<Palette>)
    ensures
        match r {
            Some(p) => i < 6 && p.name@ == PALETTES@[i as int].0@ && (p.bg, p.running, p.paused, p.done)
                == (
                PALETTES@[i as int].1,
                PALETTES@[i as int].2,
                PALETTES@[i as int].3,
                PALETTES@[i as int].4,
            ),
            None => i >= 6,
        },
{
    if i >= 6 {
        return None;
    }
    let p = PALETTES[i];
    Some(Palette { name: p.0, bg: p.1, running: p.2, paused: p.3, done: p.4 })
}

/// How opaque the background may be chosen to be.
pub const ALPHA_STEPS: [(&'static str, u8); 5] = [
    ("全透明（只剩文字）", 0),
    ("淡", 48),
    ("中", 96),
    ("浓", 160),
    ("不透明", 255),
];

// ---- what is configured ----

/// Which font draws the characters that the bitmaps lack.
#[derive(Clone, Debug, PartialEq, Eq)]
pub enum TextFont {
    /// One that is found.
    Auto,
    /// None: they are left out.
    Off,
    /// The one in this file.
    Path(String),
}

/// Which font draws the characters that the bitmaps lack.
pub ghost enum Font {
    Auto,
    Off,
    Path(Seq<char>),
}

/// The font that a value names: a path, if it is none of the words.
pub open spec fn font_named(value: Seq<char>) -> Font {
    if value.len() == 0 || value == "auto"@ {
        Font::Auto
    } else if value == "off"@ || value == "none"@ {
        Font::Off
    } else {
        Font::Path(value)
    }
}

impl Font {
    /// The value that names the font.
    pub open spec fn text(self) -> Seq<char> {
        match self {
            Font::Auto => "auto"@,
            Font::Off => "off"@,
            Font::Path(p) => p,
        }
    }
}

impl Default for TextFont {
    fn default() -> (r: Self)
        ensures
            r == TextFont::Auto,
    {
        TextFont::Auto
    }
}

impl TextFont {
    /// Which font it is.
    pub open spec fn font(self) -> Font {
        match self {
            TextFont::Auto => Font::Auto,
            TextFont::Off => Font::Off,
            TextFont::Path(p) => Font::Path(p@),
        }
    }

    /// The font that a value names.
    pub fn from_value(value: &str) -> (r: Self)
        ensures
            r.font() == font_named(value@),
    {
        let chars = chars_of(value);
        if chars.len() == 0 || same(value, "auto") {
            TextFont::Auto
        } else if same(value, "off") || same(value, "none") {
            TextFont::Off
        } else {
            TextFont::Path(string_of(&chars))
        }
    }

    /// The value that names the font.
    pub fn to_value(&self) -> (r: String)
        ensures
            r@ == self.font().text(),
    {
        match self {
            TextFont::Auto => String::from_str("auto"),
            TextFont::Off => String::from_str("off"),
            TextFont::Path(p) => copy_of(p),
        }
    }
}

/// The text of an optional string.
pub open spec fn text_of(s: Option<String>) -> Option<Seq<char>> {
    match s {
        Some(t) => Some(t@),
        None => None,
    }
}

/// The texts of strings.
pub open spec fn texts(v: Seq<String>) -> Seq<Seq<char>> {
    Seq::new(v.len(), |i: int| v[i]@)
}

/// The same text again.
pub fn copy_of(s: &String) -> (r: String)
    ensures
        r@ == s@,
{
    string_of(&chars_of(s.as_str()))
}

/// What is configured.
#[derive(Clone, Debug, PartialEq, Eq)]
pub struct Config {
    /// How long a countdown is, in seconds.
    pub duration_secs: u32,
    /// What the timer does at the start.
    pub mode: Mode,
    pub color_bg: u32,
    /// How opaque the background is.
    pub bg_alpha: u8,
    /// The colors of the digits while the timer runs, is paused and is done.
    pub color_running: Gradient,
    pub color_paused: Gradient,
    pub color_done: Gradient,
    pub text_effect: Effect,
    /// What is given as the zoom, in this order: the last that is a factor within its limits counts.
    pub zoom: Vec<String>,
    /// Whether only the text takes clicks.
    pub click_through: bool,
    pub clock_12h: bool,
    pub clock_seconds: bool,
    pub time_pad: Pad,
    pub centiseconds: bool,
    pub tray_icon: IconMode,
    pub tray_gif: Option<String>,
    /// What sets the speed of the animation.
    pub tray_throttle: Throttle,
    /// The speed of the animation in percent, where that is configured.
    pub tray_gif_speed: u32,
    pub pomo: Pomo,
    /// The lengths in the menu, in seconds.
    pub presets: Vec<u32>,
    /// The command that runs when the timer is over.
    pub on_finish: Option<String>,
    /// What stands in place of the digits then.
    pub timeout_text: Option<String>,
    pub notify: bool,
    pub notify_text: Option<String>,
    /// The sound of an end.
    pub alarm_sound: Option<String>,
    /// How loud it is, of 100.
    pub alarm_volume: u8,
    /// The file whose first line stands in place of the status.
    pub text_source: Option<String>,
    pub text_font: TextFont,
    /// How many pixels high the font draws a character, for each pixel of a bitmap.
    pub status_font_px: u32,
    /// The language of the menu and of the messages.
    pub language: Language,
    /// Where the window was.
    pub window_pos: Option<(i32, i32)>,
}

/// What is configured.
pub ghost struct Settings {
    pub duration: u32,
    pub mode: Mode,
    pub color_bg: u32,
    pub bg_alpha: u8,
    pub running: Seq<u32>,
    pub paused: Seq<u32>,
    pub done: Seq<u32>,
    pub effect: Effect,
    pub zoom: Seq<Seq<char>>,
    pub click_through: bool,
    pub clock_12h: bool,
    pub clock_seconds: bool,
    pub pad: Pad,
    pub centiseconds: bool,
    pub tray_icon: IconMode,
    pub tray_gif: Option<Seq<char>>,
    pub throttle: Throttle,
    pub gif_speed: u32,
    pub work: u32,
    pub short_break: u32,
    pub long_break: u32,
    pub rounds: u32,
    pub cycles: u32,
    pub steps: Seq<u32>,
    pub presets: Seq<u32>,
    pub on_finish: Option<Seq<char>>,
    pub timeout_text: Option<Seq<char>>,
    pub notify: bool,
    pub notify_text: Option<Seq<char>>,
    pub alarm_sound: Option<Seq<char>>,
    pub alarm_volume: u8,
    pub text_source: Option<Seq<char>>,
    pub text_font: Font,
    pub font_px: u32,
    pub language: Language,
    pub place: Option<(i32, i32)>,
}

impl View for Config {
    type V = Settings;

    open spec fn view(&self) -> Settings {
        Settings {
            duration: self.duration_secs,
            mode: self.mode,
            color_bg: self.color_bg,
            bg_alpha: self.bg_alpha,
            running: self.color_running.stops@,
            paused: self.color_paused.stops@,
            done: self.color_done.stops@,
            effect: self.text_effect,
            zoom: texts(self.zoom@),
            click_through: self.click_through,
            clock_12h: self.clock_12h,
            clock_seconds: self.clock_seconds,
            pad: self.time_pad,
            centiseconds: self.centiseconds,
            tray_icon: self.tray_icon,
            tray_gif: text_of(self.tray_gif),
            throttle: self.tray_throttle,
            gif_speed: self.tray_gif_speed,
            work: self.pomo.work,
            short_break: self.pomo.short_break,
            long_break: self.pomo.long_break,
            rounds: self.pomo.rounds,
            cycles: self.pomo.cycles,
            steps: self.pomo.seq@,
            presets: self.presets@,
            on_finish: text_of(self.on_finish),
            timeout_text: text_of(self.timeout_text),
            notify: self.notify,
            notify_text: text_of(self.notify_text),
            alarm_sound: text_of(self.alarm_sound),
            alarm_volume: self.alarm_volume,
            text_source: text_of(self.text_source),
            text_font: self.text_font.font(),
            font_px: self.status_font_px,
            language: self.language,
            place: self.window_pos,
        }
    }
}

/// What is configured where nothing is said.
pub open spec fn factory() -> Settings {
    Settings {
        duration: 60,
        mode: Mode::Countdown,
        color_bg: 0x0f0f14,
        bg_alpha: 0,
        running: seq![0xffffffu32],
        paused: seq![0xffc850u32],
        done: seq![0x50dc78u32],
        effect: Effect::Plain,
        zoom: Seq::empty(),
        click_through: false,
        clock_12h: false,
        clock_seconds: true,
        pad: Pad::Plain,
        centiseconds: false,
        tray_icon: IconMode::Clock,
        tray_gif: None,
        throttle: Throttle::Off,
        gif_speed: MAX_GIF_SPEED,
        work: 1500,
        short_break: 300,
        long_break: 900,
        rounds: 4,
        cycles: 0,
        steps: Seq::empty(),
        presets: DEFAULT_PRESETS@,
        on_finish: None,
        timeout_text: None,
        notify: true,
        notify_text: None,
        alarm_sound: None,
        alarm_volume: 100,
        text_source: None,
        text_font: Font::Auto,
        font_px: 12,
        language: Language::Auto,
        place: None,
    }
}

impl Default for Config {
    fn default() -> (r: Self)
        ensures
            r@ == factory(),
    {
        let mut presets: Vec<u32> = Vec::new();
        let mut i: usize = 0;
        while i < 6
            invariant
                i <= 6,
                presets@ == DEFAULT_PRESETS@.take(i as int),
            decreases 6 - i,
        {
            presets.push(DEFAULT_PRESETS[i]);
            assert(presets@ =~= DEFAULT_PRESETS@.take(i + 1));
            i = i + 1;
        }
        let r = Config {
            duration_secs: 60,
            mode: Mode::Countdown,
            color_bg: 0x0f0f14,
            bg_alpha: 0,
            color_running: Gradient::solid(0xffffff),
            color_paused: Gradient::solid(0xffc850),
            color_done: Gradient::solid(0x50dc78),
            text_effect: Effect::Plain,
            zoom: Vec::new(),
            click_through: false,
            clock_12h: false,
            clock_seconds: true,
            time_pad: Pad::Plain,
            centiseconds: false,
            tray_icon: IconMode::Clock,
            tray_gif: None,
            tray_throttle: Throttle::Off,
            tray_gif_speed: MAX_GIF_SPEED,
            pomo: Pomo::default(),
            presets,
            on_finish: None,
            timeout_text: None,
            notify: true,
            notify_text: None,
            alarm_sound: None,
            alarm_volume: 100,
            text_source: None,
            text_font: TextFont::Auto,
            status_font_px: TTF_PX_PER_CELL,
            language: Language::Auto,
            window_pos: None,
        };
        assert(r.presets@ =~= DEFAULT_PRESETS@);
        assert(texts(r.zoom@) =~= Seq::<Seq<char>>::empty());
        r
    }
}

// ---- reading ----

/// Whether a value means yes.
pub open spec fn is_yes(value: Seq<char>) -> bool {
    let v = strings::lowered(value);
    v == "true"@ || v == "1"@ || v == "yes"@ || v == "on"@
}

/// The text of a value, where there is one.
pub open spec fn some_text(value: Seq<char>, before: Option<Seq<char>>) -> Option<Seq<char>> {
    if value.len() > 0 {
        Some(value)
    } else {
        before
    }
}

/// What a value reads as, or what was there before.
pub open spec fn or_before<T>(read: Option<T>, before: T) -> T {
    match read {
        Some(v) => v,
        None => before,
    }
}

/// The number from `min` to `max` that a value writes.
pub open spec fn number_in(value: Seq<char>, min: nat, max: nat) -> Option<nat> {
    match strings::unsigned_upto(value, max) {
        Some(n) => if min <= n {
            Some(n)
        } else {
            None
        },
        None => None,
    }
}

/// The coordinate that a value writes.
pub open spec fn coordinate(value: Seq<char>) -> Option<i32> {
    match strings::signed(value) {
        Some(n) => if i32::MIN <= n <= i32::MAX {
            Some(n as i32)
        } else {
            None
        },
        None => None,
    }
}

/// What is configured after a value is given for a key other than a coordinate.
#[verifier::opaque]
pub open spec fn applied(s: Settings, key: Key, value: Seq<char>) -> Settings {
    match key {
        Key::Duration => Settings { duration: or_before(parse::duration(value), s.duration), ..s },
        Key::Mode => Settings { mode: or_before(timer::mode_named(value), s.mode), ..s },
        Key::TrayIcon => Settings { tray_icon: or_before(tray::icon_named(value), s.tray_icon), ..s },
        Key::TrayGif => Settings { tray_gif: some_text(value, s.tray_gif), ..s },
        Key::TrayThrottle => Settings {
            throttle: or_before(anim::throttle_named(value), s.throttle),
            ..s
        },
        Key::TrayGifSpeed => Settings {
            gif_speed: or_before(
                number_in(value, MIN_GIF_SPEED as nat, MAX_GIF_SPEED as nat),
                s.gif_speed as nat,
            ) as u32,
            ..s
        },
        Key::BgAlpha => Settings {
            bg_alpha: or_before(number_in(value, 0, 255), s.bg_alpha as nat) as u8,
            ..s
        },
        Key::Zoom => Settings { zoom: s.zoom.push(value), ..s },
        Key::ClickThrough => Settings { click_through: is_yes(value), ..s },
        Key::Clock12h => Settings { clock_12h: is_yes(value), ..s },
        Key::ClockSeconds => Settings { clock_seconds: is_yes(value), ..s },
        Key::Centiseconds => Settings { centiseconds: is_yes(value), ..s },
        Key::Notify => Settings { notify: is_yes(value), ..s },
        Key::TimePad => Settings { pad: or_before(render::pad_named(value), s.pad), ..s },
        Key::Presets => Settings { presets: or_before(preset_list(value), s.presets), ..s },
        Key::PomoWork => Settings { work: or_before(span(value, 1), s.work), ..s },
        Key::PomoBreak => Settings { short_break: or_before(span(value, 1), s.short_break), ..s },
        Key::PomoLongBreak => Settings { long_break: or_before(span(value, 0), s.long_break), ..s },
        Key::PomoRounds => Settings {
            rounds: or_before(number_in(value, 1, MAX_ROUNDS as nat), s.rounds as nat) as u32,
            ..s
        },
        Key::PomoCycles => Settings {
            cycles: or_before(number_in(value, 0, MAX_ROUNDS as nat), s.cycles as nat) as u32,
            ..s
        },
        Key::PomoSeq => Settings { steps: or_before(step_list(value), s.steps), ..s },
        Key::OnFinish => Settings { on_finish: some_text(value, s.on_finish), ..s },
        Key::TimeoutText => Settings { timeout_text: some_text(value, s.timeout_text), ..s },
        Key::NotifyText => Settings { notify_text: some_text(value, s.notify_text), ..s },
        Key::AlarmSound => Settings { alarm_sound: some_text(value, s.alarm_sound), ..s },
        Key::AlarmVolume => Settings {
            alarm_volume: or_before(number_in(value, 0, 100), s.alarm_volume as nat) as u8,
            ..s
        },
        Key::TextSource => Settings { text_source: some_text(value, s.text_source), ..s },
        Key::TextFont => Settings { text_font: font_named(value), ..s },
        Key::StatusFontPx => Settings {
            font_px: or_before(
                number_in(value, MIN_FONT_PX as nat, MAX_FONT_PX as nat),
                s.font_px as nat,
            ) as u32,
            ..s
        },
        Key::Language => Settings { language: or_before(lang::named(value), s.language), ..s },
        Key::ColorBg => Settings { color_bg: or_before(render::color(value), s.color_bg), ..s },
        Key::ColorRunning => Settings { running: or_before(effect::gradient(value), s.running), ..s },
        Key::ColorPaused => Settings { paused: or_before(effect::gradient(value), s.paused), ..s },
        Key::ColorDone => Settings { done: or_before(effect::gradient(value), s.done), ..s },
        Key::TextEffect => Settings { effect: or_before(effect::effect_named(value), s.effect), ..s },
        Key::WindowX | Key::WindowY => s,
    }
}

/// The key and the value of a line; a comment, and a line without a known key, have none.
pub open spec fn entry(line: Seq<char>) -> Option<(Key, Seq<char>)> {
    let t = strings::trimmed(line);
    let at = strings::index_from(t, '=', 0);
    if t.len() == 0 || t[0] == '#' || at >= t.len() {
        None
    } else {
        match key_named(strings::trimmed(t.subrange(0, at))) {
            Some(k) => Some((k, strings::trimmed(t.subrange(at + 1, t.len() as int)))),
            None => None,
        }
    }
}

/// What is configured so far, and the coordinates of the window that were given last.
pub ghost struct Reading {
    pub settings: Settings,
    pub x: Option<i32>,
    pub y: Option<i32>,
}

/// What is read after a line.
pub open spec fn after_line(r: Reading, line: Seq<char>) -> Reading {
    match entry(line) {
        Some((k, v)) => if k == Key::WindowX {
            Reading { x: coordinate(v), ..r }
        } else if k == Key::WindowY {
            Reading { y: coordinate(v), ..r }
        } else {
            Reading { settings: applied(r.settings, k, v), ..r }
        },
        None => r,
    }
}

/// What is read after the first `n` lines.
pub open spec fn after_lines(lines: Seq<Seq<char>>, n: int) -> Reading
    decreases n,
{
    if n <= 0 {
        Reading { settings: factory(), x: None, y: None }
    } else {
        after_line(after_lines(lines, n - 1), lines[n - 1])
    }
}

/// A place needs both of its coordinates.
pub open spec fn placed(r: Reading) -> Settings {
    match (r.x, r.y) {
        (Some(x), Some(y)) => Settings { place: Some((x, y)), ..r.settings },
        _ => r.settings,
    }
}

/// What a file configures.
pub open spec fn configured(text: Seq<char>) -> Settings {
    let lines = strings::pieces(text, seq!['\n']);
    placed(after_lines(lines, lines.len() as int))
}

/// Whether a value means yes.
fn yes(value: &str) -> (r: bool)
    ensures
        r == is_yes(value@),
{
    let v = string_of(&lower_all(&chars_of(value)));
    let v = v.as_str();
    same(v, "true") || same(v, "1") || same(v, "yes") || same(v, "on")
}

/// The text of a value, where there is one.
fn text_or(value: &str, before: Option<String>) -> (r: Option<String>)
    ensures
        text_of(r) == some_text(value@, text_of(before)),
{
    let chars = chars_of(value);
    if chars.len() > 0 {
        Some(string_of(&chars))
    } else {
        before
    }
}

impl Config {
    /// Takes a value for a key whose value is a choice.
    fn apply_choice(&mut self, key: Key, value: &str)
        requires
            key == Key::Mode || key == Key::TrayIcon || key == Key::ClickThrough || key == Key::Clock12h || key == Key::ClockSeconds || key == Key::Centiseconds || key == Key::Notify || key == Key::TimePad || key == Key::TextEffect || key == Key::Language || key == Key::TrayThrottle,
        ensures
            final(self)@ == applied(old(self)@, key, value@),
            final(self).window_pos == old(self).window_pos,
    {
        proof {
            reveal(applied);
        }
        match key {
            Key::Mode => {
                if let Some(m) = Mode::from_name(value) {
                    self.mode = m;
                }
            },
            Key::TrayIcon => {
                if let Some(m) = IconMode::from_name(value) {
                    self.tray_icon = m;
                }
            },
            Key::ClickThrough => {
                self.click_through = yes(value);
            },
            Key::Clock12h => {
                self.clock_12h = yes(value);
            },
            Key::ClockSeconds => {
                self.clock_seconds = yes(value);
            },
            Key::Centiseconds => {
                self.centiseconds = yes(value);
            },
            Key::Notify => {
                self.notify = yes(value);
            },
            Key::TimePad => {
                if let Some(p) = Pad::from_name(value) {
                    self.time_pad = p;
                }
            },
            Key::TextEffect => {
                if let Some(e) = Effect::from_name(value) {
                    self.text_effect = e;
                }
            },
            Key::TrayThrottle => {
                if let Some(t) = Throttle::from_name(value) {
                    self.tray_throttle = t;
                }
            },
            Key::Language => {
                if let Some(l) = Language::from_name(value) {
                    self.language = l;
                }
            },
            _ => {},
        }
    }

    /// Takes a value for a key whose value is a number or a length.
    #[verifier::rlimit(40)]
    #[verifier::spinoff_prover]
    fn apply_number(&mut self, key: Key, value: &str)
        requires
            key == Key::Duration || key == Key::BgAlpha || key == Key::Presets || key == Key::PomoWork || key == Key::PomoBreak || key == Key::PomoLongBreak || key == Key::PomoRounds || key == Key::PomoCycles || key == Key::PomoSeq || key == Key::AlarmVolume || key == Key::StatusFontPx || key == Key::TrayGifSpeed,
        ensures
            final(self)@ == applied(old(self)@, key, value@),
            final(self).window_pos == old(self).window_pos,
    {
        proof {
            reveal(applied);
        }
        match key {
            Key::Duration => {
                if let Some(n) = parse_duration(value) {
                    self.duration_secs = n;
                }
            },
            Key::BgAlpha => {
                if let Some(n) = parse_upto(&chars_of(value), 255) {
                    self.bg_alpha = n as u8;
                }
            },
            Key::Presets => {
                if let Some(list) = parse_preset_list(value) {
                    self.presets = list;
                }
            },
            Key::PomoWork => {
                if let Some(n) = parse_span(value, 1) {
                    self.pomo.work = n;
                }
            },
            Key::PomoBreak => {
                if let Some(n) = parse_span(value, 1) {
                    self.pomo.short_break = n;
                }
            },
            Key::PomoLongBreak => {
                if let Some(n) = parse_span(value, 0) {
                    self.pomo.long_break = n;
                }
            },
            Key::PomoRounds => {
                if let Some(n) = parse_upto(&chars_of(value), MAX_ROUNDS as u64) {
                    if n >= 1 {
                        self.pomo.rounds = n as u32;
                    }
                }
            },
            Key::PomoCycles => {
                if let Some(n) = parse_upto(&chars_of(value), MAX_ROUNDS as u64) {
                    self.pomo.cycles = n as u32;
                }
            },
            Key::PomoSeq => {
                if let Some(list) = parse_step_list(value) {
                    self.pomo.seq = list;
                }
            },
            Key::AlarmVolume => {
                if let Some(n) = parse_upto(&chars_of(value), 100) {
                    self.alarm_volume = n as u8;
                }
            },
            Key::TrayGifSpeed => {
                if let Some(n) = parse_upto(&chars_of(value), MAX_GIF_SPEED as u64) {
                    if n >= MIN_GIF_SPEED as u64 {
                        self.tray_gif_speed = n as u32;
                    }
                }
            },
            Key::StatusFontPx => {
                if let Some(n) = parse_upto(&chars_of(value), MAX_FONT_PX as u64) {
                    if n >= MIN_FONT_PX as u64 {
                        self.status_font_px = n as u32;
                    }
                }
            },
            _ => {},
        }
    }

    /// Takes a value for a key whose value is a text.
    fn apply_text(&mut self, key: Key, value: &str)
        requires
            key == Key::TrayGif || key == Key::Zoom || key == Key::OnFinish || key == Key::TimeoutText || key == Key::NotifyText || key == Key::TextSource || key == Key::TextFont || key == Key::AlarmSound,
        ensures
            final(self)@ == applied(old(self)@, key, value@),
            final(self).window_pos == old(self).window_pos,
    {
        proof {
            reveal(applied);
        }
        match key {
            Key::TrayGif => {
                self.tray_gif = text_or(value, self.tray_gif.take());
            },
            Key::Zoom => {
                let ghost before = texts(self.zoom@);
                self.zoom.push(string_of(&chars_of(value)));
                assert(texts(self.zoom@) =~= before.push(value@));
            },
            Key::OnFinish => {
                self.on_finish = text_or(value, self.on_finish.take());
            },
            Key::TimeoutText => {
                self.timeout_text = text_or(value, self.timeout_text.take());
            },
            Key::NotifyText => {
                self.notify_text = text_or(value, self.notify_text.take());
            },
            Key::AlarmSound => {
                self.alarm_sound = text_or(value, self.alarm_sound.take());
            },
            Key::TextSource => {
                self.text_source = text_or(value, self.text_source.take());
            },
            Key::TextFont => {
                self.text_font = TextFont::from_value(value);
            },
            _ => {},
        }
    }

    /// Takes a value for a key whose value is a color.
    fn apply_color(&mut self, key: Key, value: &str)
        requires
            key == Key::ColorBg || key == Key::ColorRunning || key == Key::ColorPaused || key == Key::ColorDone,
        ensures
            final(self)@ == applied(old(self)@, key, value@),
            final(self).window_pos == old(self).window_pos,
    {
        proof {
            reveal(applied);
        }
        match key {
            Key::ColorBg => {
                if let Some(c) = parse_color(value) {
                    self.color_bg = c;
                }
            },
            Key::ColorRunning => {
                if let Some(g) = Gradient::parse(value) {
                    self.color_running = g;
                }
            },
            Key::ColorPaused => {
                if let Some(g) = Gradient::parse(value) {
                    self.color_paused = g;
                }
            },
            Key::ColorDone => {
                if let Some(g) = Gradient::parse(value) {
                    self.color_done = g;
                }
            },
            _ => {},
        }
    }

    /// Takes a value for a key other than a coordinate.
    fn apply(&mut self, key: Key, value: &str)
        requires
            key != Key::WindowX,
            key != Key::WindowY,
        ensures
            final(self)@ == applied(old(self)@, key, value@),
            final(self).window_pos == old(self).window_pos,
    {
        match key {
            Key::Mode | Key::TrayIcon | Key::TrayThrottle | Key::ClickThrough | Key::Clock12h | Key::ClockSeconds | Key::Centiseconds | Key::Notify | Key::TimePad | Key::TextEffect | Key::Language => self.apply_choice(key, value),
            Key::Duration | Key::BgAlpha | Key::TrayGifSpeed | Key::Presets | Key::PomoWork | Key::PomoBreak | Key::PomoLongBreak | Key::PomoRounds | Key::PomoCycles | Key::PomoSeq | Key::AlarmVolume | Key::StatusFontPx => self.apply_number(key, value),
            Key::TrayGif | Key::Zoom | Key::OnFinish | Key::TimeoutText | Key::NotifyText | Key::TextSource | Key::TextFont | Key::AlarmSound => self.apply_text(key, value),
            Key::ColorBg | Key::ColorRunning | Key::ColorPaused | Key::ColorDone => self.apply_color(key, value),
            Key::WindowX | Key::WindowY => {},
        }
    }

    /// What a file configures: each line that gives a known key a value it can have changes that,
    /// in the order of the lines.
    pub fn from_str(text: &str) -> (r: Config)
        ensures
            r@ == configured(text@),
    {
        let mut cfg = Config::default();
        let mut x: Option<i32> = None;
        let mut y: Option<i32> = None;
        let seps: [char; 1] = ['\n'];
        assert(seps@ =~= seq!['\n']);
        let all = split(&chars_of(text), &seps);
        let ghost lines = strings::rows(all@);
        let mut i: usize = 0;
        while i < all.len()
            invariant
                i <= all@.len(),
                lines == strings::rows(all@),
                cfg.window_pos is None,
                cfg@ == after_lines(lines, i as int).settings,
                x == after_lines(lines, i as int).x,
                y == after_lines(lines, i as int).y,
            decreases all@.len() - i,
        {
            let line = trim(&all[i]);
            assert(line@ == strings::trimmed(lines[i as int]));
            if line.len() > 0 && line[0] != '#' {
                let at: usize = index_of(line, '=');
                if at < line.len() {
                    let key = string_of(trim(&line[0..at]));
                    let value = string_of(trim(&line[at + 1..line.len()]));
                    if let Some(k) = Key::from_name(key.as_str()) {
                        if k == Key::WindowX {
                            x = parse_i32(&chars_of(value.as_str()));
                        } else if k == Key::WindowY {
                            y = parse_i32(&chars_of(value.as_str()));
                        } else {
                            cfg.apply(k, value.as_str());
                        }
                    }
                }
            }
            i = i + 1;
        }
        if let (Some(x), Some(y)) = (x, y) {
            cfg.window_pos = Some((x, y));
        }
        cfg
    }
}

// ---- paths ----

/// The path `b` inside `a`; an absolute one stays as it is.
pub open spec fn joined_path(a: Seq<char>, b: Seq<char>) -> Seq<char> {
    if b.len() > 0 && b[0] == '/' {
        b
    } else if a.len() == 0 || a.last() == '/' {
        a + b
    } else {
        a.push('/') + b
    }
}

/// The path `b` inside `a`.
pub fn join_path(a: &str, b: &str) -> (r: String)
    ensures
        r@ == joined_path(a@, b@),
{
    let (x, y) = (chars_of(a), chars_of(b));
    if y.len() > 0 && y[0] == '/' {
        return string_of(&y);
    }
    let mut out = string_of(&x);
    if x.len() > 0 && x[x.len() - 1] != '/' {
        out.push('/');
    }
    out.append(b);
    assert(out@ =~= joined_path(a@, b@));
    out
}

/// The text of a borrowed string that may be there.
pub open spec fn text_at(s: Option<&str>) -> Option<Seq<char>> {
    match s {
        Some(t) => Some(t@),
        None => None,
    }
}

/// A path with the home directory in place of the `~` that it begins with.
pub open spec fn expanded(raw: Seq<char>, home: Option<Seq<char>>) -> Seq<char> {
    let t = strings::trimmed(raw);
    match home {
        Some(h) => if t == seq!['~'] || t == seq!['~', '/'] {
            h
        } else if t.len() > 2 && t[0] == '~' && t[1] == '/' {
            joined_path(h, t.subrange(2, t.len() as int))
        } else {
            t
        },
        None => t,
    }
}

/// A path with the home directory in place of the `~` that it begins with, where it is `~` alone or
/// `~/` follows.
pub fn expand_tilde(raw: &str, home: Option<&str>) -> (r: String)
    ensures
        r@ == expanded(raw@, text_at(home)),
{
    let all = chars_of(raw);
    let t = trim(&all);
    match home {
        Some(h) => {
            let marked = t.len() > 0 && t[0] == '~' && (t.len() == 1 || t[1] == '/');
            if !marked {
                assert(t@ != seq!['~'] && t@ != seq!['~', '/']) by {
                    if t@ == seq!['~'] {
                        assert(t@[0] == '~' && t@.len() == 1);
                    }
                    if t@ == seq!['~', '/'] {
                        assert(t@[0] == '~' && t@[1] == '/' && t@.len() == 2);
                    }
                }
                string_of(t)
            } else if t.len() <= 2 {
                assert(t@.len() == 1 ==> t@ =~= seq!['~']);
                assert(t@.len() == 2 ==> t@ =~= seq!['~', '/']);
                string_of(&chars_of(h))
            } else {
                let rest = string_of(&t[2..t.len()]);
                join_path(h, rest.as_str())
            }
        },
        None => string_of(t),
    }
}

/// A directory counts only where it is an absolute path: a relative one would move with the
/// directory that the program was started in.
pub open spec fn absolute_path(value: Option<Seq<char>>) -> Option<Seq<char>> {
    match value {
        Some(p) => if p.len() > 0 && p[0] == '/' {
            Some(p)
        } else {
            None
        },
        None => None,
    }
}

/// The path, where it is absolute.
pub fn absolute(value: Option<&str>) -> (r: Option<String>)
    ensures
        text_of(r) == absolute_path(text_at(value)),
{
    match value {
        Some(p) => {
            let c = chars_of(p);
            if c.len() > 0 && c[0] == '/' {
                Some(string_of(&c))
            } else {
                None
            }
        },
        None => None,
    }
}

/// The root of all configuration: the one that is named, or `.config` in the home directory.
pub open spec fn base(xdg: Option<Seq<char>>, home: Option<Seq<char>>) -> Option<Seq<char>> {
    match absolute_path(xdg) {
        Some(p) => Some(p),
        None => match absolute_path(home) {
            Some(h) => Some(joined_path(h, ".config"@)),
            None => None,
        },
    }
}

/// The root of all configuration.
pub fn base_dir(xdg: Option<&str>, home: Option<&str>) -> (r: Option<String>)
    ensures
        text_of(r) == base(text_at(xdg), text_at(home)),
{
    match absolute(xdg) {
        Some(p) => Some(p),
        None => match absolute(home) {
            Some(h) => Some(join_path(h.as_str(), ".config")),
            None => None,
        },
    }
}

/// The directory of this program's configuration: the one that was asked for, or its own in the
/// root of all configuration.
pub open spec fn dir(explicit: Option<Seq<char>>, xdg: Option<Seq<char>>, home: Option<Seq<char>>) -> Option<
    Seq<char>,
> {
    match explicit {
        Some(p) if p.len() > 0 => Some(p),
        _ => match base(xdg, home) {
            Some(b) => Some(joined_path(b, "tinyticker"@)),
            None => None,
        },
    }
}

/// The directory of this program's configuration. Without one nothing is read or written.
pub fn resolve_config_dir(explicit: Option<&str>, xdg: Option<&str>, home: Option<&str>) -> (r: Option<
    String,
>)
    ensures
        text_of(r) == dir(text_at(explicit), text_at(xdg), text_at(home)),
{
    if let Some(p) = explicit {
        let c = chars_of(p);
        if c.len() > 0 {
            return Some(string_of(&c));
        }
    }
    match base_dir(xdg, home) {
        Some(b) => Some(join_path(b.as_str(), "tinyticker")),
        None => None,
    }
}

/// The file of the configuration.
pub fn config_path(explicit: Option<&str>, xdg: Option<&str>, home: Option<&str>) -> (r: Option<String>)
    ensures
        text_of(r) == (match dir(text_at(explicit), text_at(xdg), text_at(home)) {
            Some(d) => Some(joined_path(d, "config.conf"@)),
            None => None::<Seq<char>>,
        }),
{
    match resolve_config_dir(explicit, xdg, home) {
        Some(d) => Some(join_path(d.as_str(), "config.conf")),
        None => None,
    }
}

/// The name of the file that starts the program with the session.
pub const AUTOSTART_FILE: &'static str = "io.github.panzhifu.tinyticker.desktop";

/// The file that starts the program with the session.
pub fn autostart_path(xdg: Option<&str>, home: Option<&str>) -> (r: Option<String>)
    ensures
        text_of(r) == (match base(text_at(xdg), text_at(home)) {
            Some(b) => Some(joined_path(joined_path(b, "autostart"@), AUTOSTART_FILE@)),
            None => None::<Seq<char>>,
        }),
{
    match base_dir(xdg, home) {
        Some(b) => {
            let d = join_path(b.as_str(), "autostart");
            Some(join_path(d.as_str(), AUTOSTART_FILE))
        },
        None => None,
    }
}

/// What the file that starts the program with the session holds.
pub open spec fn autostart_text(exec: Seq<char>) -> Seq<char> {
    "[Desktop Entry]\nType=Application\nName=TinyTicker\nComment=极简悬浮计时器\nExec="@ + exec
        + "\nTerminal=false\nX-GNOME-Autostart-enabled=true\n"@
}

/// What the file that starts `exec` with the session holds.
pub fn autostart_entry(exec: &str) -> (r: String)
    ensures
        r@ == autostart_text(exec@),
{
    let mut out = String::from_str(
        "[Desktop Entry]\nType=Application\nName=TinyTicker\nComment=极简悬浮计时器\nExec=",
    );
    out.append(exec);
    out.append("\nTerminal=false\nX-GNOME-Autostart-enabled=true\n");
    out
}

// ---- changes of the file ----

/// How long at least it is between two looks at the file, in milliseconds.
pub const WATCH_EVERY_MS: u64 = 250;

/// Whether the file was changed by someone else: its size and the time of its last change tell.
/// Moments are in milliseconds.
#[derive(Clone, Copy, Debug)]
pub struct Watch {
    /// The size and the time of the last change that are known.
    pub stamp: Option<(u64, u64)>,
    /// The last look at the file.
    pub at: u64,
}

impl Watch {
    /// Whether it is time to look at the file again.
    pub open spec fn is_due(self, now: u64) -> bool {
        now >= self.at && now - self.at >= WATCH_EVERY_MS
    }

    /// What is known after a look at the file, and whether it changed.
    pub open spec fn looked(self, now: u64, stat: Option<(u64, u64)>) -> (Watch, bool) {
        if !self.is_due(now) {
            (self, false)
        } else if stat is None || stat == self.stamp {
            (Watch { at: now, ..self }, false)
        } else {
            (Watch { at: now, stamp: stat }, true)
        }
    }

    /// A watch that knows the file as it is now.
    pub fn new(stat: Option<(u64, u64)>, now: u64) -> (r: Self)
        ensures
            r == (Watch { stamp: stat, at: now }),
    {
        Watch { stamp: stat, at: now }
    }

    /// Takes the file as it is now for known: after the program itself wrote it.
    pub fn sync(&mut self, stat: Option<(u64, u64)>)
        ensures
            *final(self) == (Watch { stamp: stat, ..*old(self) }),
    {
        self.stamp = stat;
    }

    /// Whether it is time to look at the file again.
    pub fn due(&self, now: u64) -> (r: bool)
        ensures
            r == self.is_due(now),
    {
        now >= self.at && now - self.at >= WATCH_EVERY_MS
    }

    /// Whether the file changed, by a look at it. One that cannot be looked at is between two
    /// states, and did not change yet.
    pub fn changed(&mut self, now: u64, stat: Option<(u64, u64)>) -> (r: bool)
        ensures
            (*final(self), r) == old(self).looked(now, stat),
            r == (old(self).is_due(now) && stat is Some && stat != old(self).stamp),
            final(self).stamp == (if r {
                stat
            } else {
                old(self).stamp
            }),
            final(self).at == (if old(self).is_due(now) {
                now
            } else {
                old(self).at
            }),
    {
        if !self.due(now) {
            return false;
        }
        self.at = now;
        match (stat, self.stamp) {
            (None, _) => false,
            (Some(a), Some(b)) => {
                if a.0 == b.0 && a.1 == b.1 {
                    false
                } else {
                    self.stamp = stat;
                    true
                }
            },
            (Some(_), None) => {
                self.stamp = stat;
                true
            },
        }
    }
}

/// A change is seen as soon as it is time for a look, and only then; what the program writes itself
/// is no change, and no change is reported twice.
pub proof fn law_changes_are_seen_once(w: Watch, now: u64, later: u64, stat: Option<(u64, u64)>)
    ensures
        !(Watch { stamp: stat, ..w }).looked(now, stat).1,
        w.looked(now, stat).1 ==> !w.looked(now, stat).0.looked(later, stat).1,
        w.looked(now, stat).1 <==> w.is_due(now) && stat is Some && stat != w.stamp,
        w.looked(now, stat).0.stamp == (if w.looked(now, stat).1 {
            stat
        } else {
            w.stamp
        }),
{
}

/// A `~` at the beginning of a path stands for the home directory: alone, or with a slash and a path
/// in it behind. Any other path stays as it is, and all do where there is no home.
pub proof fn law_home_is_filled_in(home: Seq<char>, rest: Seq<char>, raw: Seq<char>)
    ensures
        strings::trimmed(raw) == seq!['~'] ==> expanded(raw, Some(home)) == home,
        strings::trimmed(raw) == seq!['~', '/'] + rest && rest.len() > 0 && home.len() > 0 && home.last()
            != '/' && rest[0] != '/' ==> expanded(raw, Some(home)) == home + seq!['/'] + rest,
        strings::trimmed(raw).len() == 0 || strings::trimmed(raw)[0] != '~' ==> expanded(raw, Some(home))
            == strings::trimmed(raw),
        expanded(raw, None) == strings::trimmed(raw),
{
    let t = strings::trimmed(raw);
    if t == seq!['~', '/'] + rest && rest.len() > 0 {
        assert(t.subrange(2, t.len() as int) =~= rest);
        assert(home.push('/') + rest =~= home + seq!['/'] + rest);
    }
}

/// A path inside a directory follows it with one slash between them; an absolute path stays.
pub proof fn law_paths_are_joined(a: Seq<char>, b: Seq<char>)
    ensures
        b.len() > 0 && b[0] == '/' ==> joined_path(a, b) == b,
        (b.len() == 0 || b[0] != '/') && a.len() > 0 && a.last() != '/' ==> joined_path(a, b) == a + seq![
            '/',
        ] + b,
        (b.len() == 0 || b[0] != '/') && a.len() > 0 && a.last() == '/' ==> joined_path(a, b) == a + b,
{
    assert(a.push('/') + b =~= a + seq!['/'] + b);
}

/// The label of a length names its hours, minutes and seconds in this order, with a space between
/// them; those that are zero are left out, but for the seconds of a length of nothing.
pub proof fn law_label_reads(h: u32, m: u32, s: u32)
    requires
        m < 60,
        s < 60,
        3600 * h + 60 * m + s <= u32::MAX,
    ensures
        ({
            let text = label_text((3600 * h + 60 * m + s) as u32);
            let hours = strings::digits(h as nat) + " 小时"@;
            let minutes = strings::digits(m as nat) + " 分"@;
            let seconds = strings::digits(s as nat) + " 秒"@;
            &&& h == 0 && m == 0 ==> text == seconds
            &&& h == 0 && m > 0 && s == 0 ==> text == minutes
            &&& h == 0 && m > 0 && s > 0 ==> text == minutes + " "@ + seconds
            &&& h > 0 && m == 0 && s == 0 ==> text == hours
            &&& h > 0 && m == 0 && s > 0 ==> text == hours + " "@ + seconds
            &&& h > 0 && m > 0 && s == 0 ==> text == hours + " "@ + minutes
            &&& h > 0 && m > 0 && s > 0 ==> text == hours + " "@ + minutes + " "@ + seconds
        }),
{
    let secs = 3600 * h + 60 * m + s;
    assert(secs / 3600 == h as int && secs % 3600 == 60 * m + s);
    assert((60 * m + s) / 60 == m as int && secs % 60 == s as int);
}

} // verus!
