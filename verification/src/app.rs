//! The window: what stands in it, what a command does to it, and what follows the end of a timer.
use crate::clock;
use crate::config;
use crate::config::{palette, Config, PALETTES};
use crate::effect;
use crate::effect::{Effect, Gradient, Row};
use crate::render;
use crate::render::{format_centis, format_time, premultiply, Canvas};
use crate::strings;
use crate::strings::{push_number, push_two, same, strip_front};
use crate::text;
use crate::text::{can_shape, shape, Inks, Run};
use crate::timer;
use crate::timer::{Finished, Mode, Timer};
use crate::tray::Command;
use vstd::prelude::*;

verus! {

/// The size of the window before it is zoomed.
pub const LOGICAL_SIZE: (u32, u32) = (200, 100);

/// The color of the status.
pub const STATUS_COLOR: u32 = 0xA0A0AA;

// ---- the command line ----

/// What is said where the directory behind `--config-dir` is missing.
pub const NO_DIR: &'static str = "--config-dir 后面要跟一个路径";

/// `dir` and `rest` with what the arguments from `i` on add: the directory that they ask for, the
/// last one where there are several, and the arguments that are left. Nothing, where a directory is
/// missing.
pub open spec fn dir_taken(args: Seq<Seq<char>>, i: int, dir: Option<Seq<char>>, rest: Seq<Seq<char>>) -> Option<
    (Option<Seq<char>>, Seq<Seq<char>>),
>
    decreases args.len() - i,
{
    if i < 0 || i >= args.len() {
        Some((dir, rest))
    } else if strings::begins(args[i], "--config-dir="@) {
        dir_taken(
            args,
            i + 1,
            Some(args[i].subrange("--config-dir="@.len() as int, args[i].len() as int)),
            rest,
        )
    } else if args[i] == "--config-dir"@ || args[i] == "-C"@ {
        if i + 1 < args.len() {
            dir_taken(args, i + 2, Some(args[i + 1]), rest)
        } else {
            None
        }
    } else {
        dir_taken(args, i + 1, dir, rest.push(args[i]))
    }
}

/// Takes the directory of the configuration out of the arguments. What is left goes to the run that
/// uses that directory.
pub fn take_config_dir(args: &[String]) -> (r: Result<(Option<String>, Vec<String>), String>)
    ensures
        match r {
            Ok((dir, rest)) => dir_taken(config::texts(args@), 0, None, Seq::empty()) == Some(
                (config::text_of(dir), config::texts(rest@)),
            ),
            Err(e) => dir_taken(config::texts(args@), 0, None, Seq::empty()) is None && e@
                == NO_DIR@,
        },
{
    let ghost all = config::texts(args@);
    let mut dir: Option<String> = None;
    let mut rest: Vec<String> = Vec::new();
    let mut i: usize = 0;
    assert(config::texts(rest@) =~= Seq::<Seq<char>>::empty());
    while i < args.len()
        invariant
            i <= args@.len(),
            all == config::texts(args@),
            dir_taken(all, 0, None, Seq::empty()) == dir_taken(
                all,
                i as int,
                config::text_of(dir),
                config::texts(rest@),
            ),
        decreases args@.len() - i,
    {
        let arg = args[i].as_str();
        assert(all[i as int] == arg@);
        let c = strings::chars_of(arg);
        if let Some(v) = strip_front(&c, "--config-dir=") {
            dir = Some(strings::string_of(v));
        } else if same(arg, "--config-dir") || same(arg, "-C") {
            i = i + 1;
            if i >= args.len() {
                return Err(String::from_str(NO_DIR));
            }
            assert(all[i as int] == args@[i as int]@);
            dir = Some(args[i].clone());
        } else {
            let ghost before = config::texts(rest@);
            rest.push(args[i].clone());
            assert(config::texts(rest@) =~= before.push(arg@));
        }
        i = i + 1;
    }
    Ok((dir, rest))
}

// ---- what stands in the window ----

/// The time of day: with the seconds where they show, and with hundredths of them where those do.
pub open spec fn clock_text(
    now: (u32, u32, u32),
    cs: Option<u32>,
    twelve: bool,
    seconds: bool,
) -> Seq<char> {
    let hour = if twelve {
        clock::face_hour(now.0 as int) as nat
    } else {
        now.0 as nat
    };
    let minutes = strings::two_digits(hour) + seq![':'] + strings::two_digits(now.1 as nat);
    let fine = match cs {
        Some(n) => seq!['.'] + strings::two_digits(n as nat),
        None => Seq::empty(),
    };
    let body = if seconds {
        minutes + seq![':'] + strings::two_digits(now.2 as nat) + fine
    } else {
        minutes
    };
    if !twelve {
        body
    } else if now.0 < 12 {
        body + " AM"@
    } else {
        body + " PM"@
    }
}

/// The time of day.
pub fn format_clock(now: (u32, u32, u32), cs: Option<u32>, twelve: bool, seconds: bool) -> (r: String)
    ensures
        r@ == clock_text(now, cs, twelve, seconds),
{
    let hour: u32 = if !twelve {
        now.0
    } else if now.0 == 0 {
        12
    } else if now.0 <= 12 {
        now.0
    } else {
        now.0 - 12
    };
    let mut out = String::new();
    push_two(&mut out, hour as u64);
    out.push(':');
    push_two(&mut out, now.1 as u64);
    let ghost minutes = strings::two_digits(hour as nat) + seq![':'] + strings::two_digits(
        now.1 as nat,
    );
    assert(out@ =~= minutes);
    if seconds {
        out.push(':');
        push_two(&mut out, now.2 as u64);
        let ghost whole = minutes + seq![':'] + strings::two_digits(now.2 as nat);
        assert(out@ =~= whole);
        match cs {
            Some(n) => {
                out.push('.');
                push_two(&mut out, n as u64);
                assert(out@ =~= whole + (seq!['.'] + strings::two_digits(n as nat)));
            },
            None => {
                assert(out@ =~= whole + Seq::<char>::empty());
            },
        }
    }
    if twelve {
        if now.0 < 12 {
            out.append(" AM");
        } else {
            out.append(" PM");
        }
    }
    out
}

/// With the seconds and without hundredths it is the time of day as it is written everywhere.
pub proof fn law_clock_is_hms(now: (u32, u32, u32), twelve: bool)
    ensures
        clock_text(now, None, twelve, true) == clock::hms_text(
            now.0 as nat,
            now.1 as nat,
            now.2 as nat,
            twelve,
        ),
{
    let hour = if twelve {
        clock::face_hour(now.0 as int) as nat
    } else {
        now.0 as nat
    };
    let base = strings::two_digits(hour) + seq![':'] + strings::two_digits(now.1 as nat) + seq![':']
        + strings::two_digits(now.2 as nat);
    assert(base + Seq::<char>::empty() =~= base);
}

/// What the digits read: the time of day, or that of the timer. A text of one's own stands there
/// once the timer is done; `0` for it means nothing at all.
pub open spec fn reading_text(t: Timer, s: config::Settings, now: (u32, u32, u32), cs: u32) -> Seq<char> {
    if t.mode == Mode::Clock {
        clock_text(
            now,
            if s.centiseconds {
                Some(cs)
            } else {
                None
            },
            s.clock_12h,
            s.clock_seconds,
        )
    } else if t.done() && s.timeout_text is Some {
        if s.timeout_text->0 == "0"@ {
            Seq::empty()
        } else {
            s.timeout_text->0
        }
    } else if s.centiseconds {
        render::time_text((t.centis() / 100) as u32, Some((t.centis() % 100) as u32), s.pad)
    } else {
        render::time_text(t.secs, None, s.pad)
    }
}

/// What the digits read.
pub fn reading(t: &Timer, config: &Config, now: (u32, u32, u32), cs: u32) -> (r: String)
    ensures
        r@ == reading_text(*t, config@, now, cs),
{
    if t.mode == Mode::Clock {
        let fine: Option<u32> = if config.centiseconds {
            Some(cs)
        } else {
            None
        };
        return format_clock(now, fine, config.clock_12h, config.clock_seconds);
    }
    if t.is_done() {
        if let Some(text) = &config.timeout_text {
            if same(text.as_str(), "0") {
                return String::new();
            }
            return text.clone();
        }
    }
    if config.centiseconds {
        format_centis(t.display_centis(), config.time_pad)
    } else {
        format_time(t.display_secs(), config.time_pad)
    }
}

/// What the timer is doing, in a word.
pub open spec fn state_text(t: Timer) -> Seq<char> {
    match t.mode {
        Mode::Clock => "CLOCK"@,
        Mode::Pomodoro => if t.done() {
            "DONE"@
        } else {
            t.pomo_label() + seq![' '] + strings::digits(t.pomo_number() as nat)
        },
        Mode::Stopwatch => if t.running {
            "RUNNING"@
        } else {
            "STOPWATCH"@
        },
        Mode::Countdown => if t.done() {
            "DONE"@
        } else if t.running {
            "RUNNING"@
        } else {
            "PAUSED"@
        },
    }
}

/// What the timer is doing, in a word.
pub fn state_of(t: &Timer) -> (r: String)
    requires
        t.wf(),
    ensures
        r@ == state_text(*t),
{
    match t.mode {
        Mode::Clock => String::from_str("CLOCK"),
        Mode::Pomodoro => {
            if t.is_done() {
                return String::from_str("DONE");
            }
            let (label, n): (&'static str, u32) = t.pomo_status();
            let mut out = String::from_str(label);
            out.push(' ');
            push_number(&mut out, n as u64);
            assert(out@ =~= label@ + seq![' '] + strings::digits(n as nat));
            out
        },
        Mode::Stopwatch => String::from_str(
            if t.running {
                "RUNNING"
            } else {
                "STOPWATCH"
            },
        ),
        Mode::Countdown => String::from_str(
            if t.is_done() {
                "DONE"
            } else if t.running {
                "RUNNING"
            } else {
                "PAUSED"
            },
        ),
    }
}

/// Which of the three colors the digits have: that of a running timer for the time of day.
pub open spec fn digit_stops(t: Timer, s: config::Settings) -> Seq<u32> {
    if t.mode == Mode::Clock {
        s.running
    } else if t.done() {
        s.done
    } else if t.running {
        s.running
    } else {
        s.paused
    }
}

/// Which of the three colors the digits have.
pub fn digit_color<'a>(t: &Timer, config: &'a Config) -> (r: &'a Gradient)
    ensures
        r.stops@ == digit_stops(*t, config@),
{
    if t.mode == Mode::Clock {
        &config.color_running
    } else if t.is_done() {
        &config.color_done
    } else if t.running {
        &config.color_running
    } else {
        &config.color_paused
    }
}

// ---- where it stands ----

/// The upper edge of the digits: both lines are in the middle, sixteen and eight times the scale
/// high with a gap of four times the scale between them, or begin at the top where they do not fit.
pub open spec fn digits_top(height: int, scale: int) -> int {
    if height > 28 * scale {
        (height - 28 * scale) / 2
    } else {
        0
    }
}

/// The upper edge of the status.
pub open spec fn status_top(height: int, scale: int) -> int {
    digits_top(height, scale) + 20 * scale
}

/// Whether the two lines can be placed.
pub open spec fn placeable(height: int, scale: int) -> bool {
    height <= i32::MAX && 28 * scale <= i32::MAX
}

/// The upper edges of both lines.
pub fn tops(height: u32, scale: u32) -> (r: (i32, i32))
    requires
        placeable(height as int, scale as int),
    ensures
        r.0 == digits_top(height as int, scale as int),
        r.1 == status_top(height as int, scale as int),
{
    let total: i32 = 28 * scale as i32;
    let h: i32 = height as i32;
    let y: i32 = if h > total {
        (h - total) / 2
    } else {
        0
    };
    (y, y + 20 * scale as i32)
}

/// Both lines are on the canvas where it is high enough, with a gap between them, and as far from
/// the upper edge as from the lower one, or a pixel nearer.
pub proof fn law_lines_are_centered(height: int, scale: int)
    requires
        scale >= 0,
        28 * scale <= height,
    ensures
        0 <= digits_top(height, scale),
        digits_top(height, scale) + 16 * scale <= status_top(height, scale),
        status_top(height, scale) + 8 * scale <= height,
        ({
            let below = height - (status_top(height, scale) + 8 * scale);
            digits_top(height, scale) <= below <= digits_top(height, scale) + 1
        }),
{
}

/// Where a line that wide begins.
pub open spec fn line_left(width: int, line: int) -> int {
    if width > line {
        (width - line) / 2
    } else {
        0
    }
}

/// The rectangle of both lines, as far as it is on the canvas: where it begins, and how large it is.
pub open spec fn text_box(width: int, height: int, scale: int, digits: int, status: int) -> (
    int,
    int,
    int,
    int,
) {
    let a = line_left(width, digits);
    let b = line_left(width, status);
    let left = if a < b {
        a
    } else {
        b
    };
    let end = if a + digits > b + status {
        a + digits
    } else {
        b + status
    };
    let right = if end < width {
        end
    } else {
        width
    };
    let top = digits_top(height, scale);
    let low = status_top(height, scale) + 8 * scale;
    let bottom = if low < height {
        low
    } else {
        height
    };
    (
        left,
        top,
        if right > left {
            right - left
        } else {
            0
        },
        if bottom > top {
            bottom - top
        } else {
            0
        },
    )
}

fn left_of(width: u32, line: u32) -> (r: u32)
    ensures
        r == line_left(width as int, line as int),
        r + line <= u32::MAX,
{
    if width > line {
        (width - line) / 2
    } else {
        0
    }
}

/// The rectangle in which clicks are taken, where only the text takes them: where it begins, and how
/// large it is. `digits` and `status` are the widths of the two lines.
pub fn input_box(width: u32, height: u32, scale: u32, digits: u32, status: u32) -> (r: (u32, u32, u32, u32))
    requires
        placeable(height as int, scale as int),
    ensures
        (r.0 as int, r.1 as int, r.2 as int, r.3 as int) == text_box(
            width as int,
            height as int,
            scale as int,
            digits as int,
            status as int,
        ),
{
    let (y_num, y_status): (i32, i32) = tops(height, scale);
    let a: u32 = left_of(width, digits);
    let b: u32 = left_of(width, status);
    let left: u32 = if a < b {
        a
    } else {
        b
    };
    let end: u32 = if a + digits > b + status {
        a + digits
    } else {
        b + status
    };
    let right: u32 = if end < width {
        end
    } else {
        width
    };
    let top: u32 = y_num as u32;
    let low: u32 = y_status as u32 + 8 * scale;
    let bottom: u32 = if low < height {
        low
    } else {
        height
    };
    (
        left,
        top,
        if right > left {
            right - left
        } else {
            0
        },
        if bottom > top {
            bottom - top
        } else {
            0
        },
    )
}

/// The rectangle lies on the canvas, and each line is in it as far as it is on the canvas.
pub proof fn law_box_is_on_canvas(width: int, height: int, scale: int, digits: int, status: int)
    requires
        0 <= width,
        0 <= height,
        0 <= scale,
        0 <= digits,
        0 <= status,
    ensures
        ({
            let (x, y, w, h) = text_box(width, height, scale, digits, status);
            &&& 0 <= x && 0 <= w && x + w <= width
            &&& 0 <= y && 0 <= h && (h > 0 ==> y + h <= height)
            &&& digits <= width ==> x <= line_left(width, digits) && line_left(width, digits) + digits <= x
                + w
            &&& status <= width ==> x <= line_left(width, status) && line_left(width, status) + status <= x
                + w
        }),
{
}

// ---- a frame ----

/// All that a frame depends on.
pub struct Look {
    pub text: String,
    pub status: String,
    pub width: u32,
    pub height: u32,
    pub scale: u32,
    /// The color of the background and how opaque it is.
    pub background: (u32, u8),
    /// The colors of the digits.
    pub digits: Gradient,
    pub effect: Effect,
    /// The moment of what moves, in milliseconds; 0 where nothing does.
    pub phase: u32,
}

/// All that a frame depends on.
pub ghost struct Sight {
    pub text: Seq<char>,
    pub status: Seq<char>,
    pub width: u32,
    pub height: u32,
    pub scale: u32,
    pub background: (u32, u8),
    pub digits: Seq<u32>,
    pub effect: Effect,
    pub phase: u32,
}

impl View for Look {
    type V = Sight;

    open spec fn view(&self) -> Sight {
        Sight {
            text: self.text@,
            status: self.status@,
            width: self.width,
            height: self.height,
            scale: self.scale,
            background: self.background,
            digits: self.digits.stops@,
            effect: self.effect,
            phase: self.phase,
        }
    }
}

fn same_stops(a: &Vec<u32>, b: &Vec<u32>) -> (r: bool)
    ensures
        r == (a@ == b@),
{
    if a.len() != b.len() {
        return false;
    }
    let mut i: usize = 0;
    while i < a.len()
        invariant
            i <= a@.len(),
            a@.len() == b@.len(),
            forall|k: int| 0 <= k < i ==> a@[k] == b@[k],
        decreases a@.len() - i,
    {
        if a[i] != b[i] {
            return false;
        }
        i = i + 1;
    }
    assert(a@ =~= b@);
    true
}

impl Sight {
    /// The canvas with nothing but the background on it.
    pub open spec fn cleared(self, len: nat) -> Seq<u32> {
        Seq::new(
            len,
            |i: int| render::premultiplied(self.background.0, self.background.1) as u32,
        )
    }

    /// Whether these are the two lines: the digits twice as large as the status.
    pub open spec fn are_lines(self, digits: Run, status: Run, wide: Inks, small: Inks) -> bool {
        &&& text::is_run(
            digits,
            wide,
            self.text,
            text::at_least(2 * self.scale, 1) as u32,
            digits_top(self.height as int, self.scale as int),
            self.text.len() as int,
        )
        &&& text::is_run(
            status,
            small,
            self.status,
            text::at_least(self.scale as int, 1) as u32,
            status_top(self.height as int, self.scale as int),
            self.status.len() as int,
        )
    }

    /// The canvas with both lines on it: the digits with their colors and their effect, and over
    /// them the status.
    pub open spec fn painted(self, len: nat, digits: Run, status: Run) -> Seq<u32> {
        let row = Row { run: &digits, scale: (2 * self.scale) as u32 };
        let with_digits = effect::drawn(
            self.cleared(len),
            self.width,
            self.height,
            seq![row],
            self.digits,
            self.effect,
            self.phase,
        );
        render::under_glyphs(
            with_digits,
            self.width as int,
            self.height as int,
            status.glyphs@,
            line_left(self.width as int, status.width as int),
            render::premultiplied(STATUS_COLOR, 255) as u32,
            status.glyphs@.len() as int,
        )
    }

    /// Whether the frame can be painted: both lines fit in the numbers that they are laid out with,
    /// and so does what the effect takes.
    pub open spec fn paintable(self, wide: Inks, small: Inks) -> bool {
        let pad = effect::pad_of(
            self.effect,
            text::at_least(2 * self.scale, 1),
        );
        &&& placeable(self.height as int, self.scale as int)
        &&& self.width * self.height <= u32::MAX
        &&& wide.fits(
            self.text,
            text::at_least(2 * self.scale, 1),
            digits_top(self.height as int, self.scale as int),
        )
        &&& small.fits(
            self.status,
            text::at_least(self.scale as int, 1),
            status_top(self.height as int, self.scale as int),
        )
        &&& self.width + 2 * pad < u32::MAX
        &&& self.height + 2 * pad < u32::MAX
        &&& (self.width + 2 * pad) * (self.height + 2 * pad) <= u32::MAX
    }
}

impl Look {
    /// Whether two frames are the same.
    pub fn same_as(&self, other: &Look) -> (r: bool)
        ensures
            r == (self@ == other@),
    {
        same(self.text.as_str(), other.text.as_str()) && same(
            self.status.as_str(),
            other.status.as_str(),
        ) && self.width == other.width && self.height == other.height && self.scale == other.scale
            && self.background.0 == other.background.0 && self.background.1 == other.background.1
            && same_stops(&self.digits.stops, &other.digits.stops) && self.effect == other.effect
            && self.phase == other.phase
    }

    /// Whether the frame can be painted. `wide` and `small` are what a font drew for the two lines.
    pub fn can_paint(&self, wide: &Inks, small: &Inks) -> (r: bool)
        ensures
            r == (self@.paintable(*wide, *small) && self.digits.wf()),
    {
        if self.digits.stops.len() == 0 || self.digits.stops.len() > effect::MAX_STOPS {
            return false;
        }
        if self.height > 0x7FFF_FFFF || self.scale > 0x7FFF_FFFF / 28 {
            return false;
        }
        assert(self.width * self.height <= 0xFFFF_FFFF * 0xFFFF_FFFF) by (nonlinear_arith)
            requires
                self.width <= 0xFFFF_FFFF,
                self.height <= 0xFFFF_FFFF,
        ;
        if self.width as u64 * self.height as u64 > 0xFFFF_FFFF {
            return false;
        }
        let (y_num, y_status): (i32, i32) = tops(self.height, self.scale);
        if !can_shape(self.text.as_str(), 2 * self.scale, y_num, wide) || !can_shape(
            self.status.as_str(),
            self.scale,
            y_status,
            small,
        ) {
            return false;
        }
        let size: u32 = if self.scale == 0 {
            1
        } else {
            2 * self.scale
        };
        let pad: u64 = effect::effect_pad(self.effect, size) as u64;
        let w: u64 = self.width as u64 + 2 * pad;
        let h: u64 = self.height as u64 + 2 * pad;
        if w >= 0xFFFF_FFFF || h >= 0xFFFF_FFFF {
            return false;
        }
        assert(w * h <= 0xFFFF_FFFF * 0xFFFF_FFFF) by (nonlinear_arith)
            requires
                0 <= w < 0xFFFF_FFFF,
                0 <= h < 0xFFFF_FFFF,
        ;
        w * h <= 0xFFFF_FFFF
    }

    /// Lays out both lines.
    fn lay_out(&self, wide: &Inks, small: &Inks) -> (r: (Run, Run))
        requires
            self@.paintable(*wide, *small),
            wide.wf(),
            small.wf(),
        ensures
            self@.are_lines(r.0, r.1, *wide, *small),
            forall|k: int| 0 <= k < r.0.glyphs@.len() ==> (#[trigger] r.0.glyphs@[k]).body.wf(),
            forall|k: int| 0 <= k < r.1.glyphs@.len() ==> (#[trigger] r.1.glyphs@[k]).body.wf(),
    {
        let (y_num, y_status): (i32, i32) = tops(self.height, self.scale);
        let digits = shape(self.text.as_str(), 2 * self.scale, y_num, wide);
        let status = shape(self.status.as_str(), self.scale, y_status, small);
        (digits, status)
    }

    /// Puts both lines on the background.
    fn put_lines(&self, canvas: &mut Canvas, digits: &Run, status: &Run)
        requires
            28 * self.scale <= i32::MAX,
            self.digits.wf(),
            old(canvas).wf(),
            old(canvas).width == self.width,
            old(canvas).height == self.height,
            forall|k: int| 0 <= k < digits.glyphs@.len() ==> (#[trigger] digits.glyphs@[k]).body.wf(),
            forall|k: int| 0 <= k < status.glyphs@.len() ==> (#[trigger] status.glyphs@[k]).body.wf(),
            effect::effect_fits(
                self.width,
                self.height,
                seq![Row { run: digits, scale: (2 * self.scale) as u32 }],
                self.effect,
            ),
        ensures
            final(canvas).buf@ == self@.painted(old(canvas).buf@.len(), *digits, *status),
            final(canvas).width == old(canvas).width,
            final(canvas).height == old(canvas).height,
            final(final(canvas).buf)@ == final(old(canvas).buf)@,
    {
        canvas.fill(premultiply(self.background.0, self.background.1));
        assert(canvas.buf@ =~= self@.cleared(old(canvas).buf@.len()));
        let rows: [Row; 1] = [Row { run: digits, scale: 2 * self.scale }];
        assert(rows@ =~= seq![Row { run: digits, scale: (2 * self.scale) as u32 }]);
        effect::draw(canvas, &rows, &self.digits, self.effect, self.phase);
        canvas.draw_run_centered(status, premultiply(STATUS_COLOR, 255));
    }

    /// Paints a frame on a canvas of its size.
    pub fn paint(&self, canvas: &mut Canvas, wide: &Inks, small: &Inks)
        requires
            self@.paintable(*wide, *small),
            wide.wf(),
            small.wf(),
            self.digits.wf(),
            old(canvas).width == self.width,
            old(canvas).height == self.height,
            self.width * self.height <= old(canvas).buf@.len(),
        ensures
            exists|digits: Run, status: Run|
                self@.are_lines(digits, status, *wide, *small) && final(canvas).buf@
                    == #[trigger] self@.painted(old(canvas).buf@.len(), digits, status),
            final(canvas).width == old(canvas).width,
            final(canvas).height == old(canvas).height,
            final(final(canvas).buf)@ == final(old(canvas).buf)@,
    {
        let (digits, status) = self.lay_out(wide, small);
        proof {
            lemma_one_row(Row { run: &digits, scale: (2 * self.scale) as u32 });
        }
        self.put_lines(canvas, &digits, &status);
        assert(canvas.buf@ == self@.painted(old(canvas).buf@.len(), digits, status));
    }
}

/// The scale of a line by itself, at least one.
proof fn lemma_one_row(row: Row)
    ensures
        effect::largest_scale(seq![row], 1) == text::at_least(row.scale as int, 1),
{
    reveal_with_fuel(effect::largest_scale, 2);
    assert(seq![row][0] == row);
}

/// Whether the row is a line in ASCII as `shape` lays it out, its upper edge at `top`.
pub open spec fn is_ascii_row(row: Row, line: Seq<char>, top: int, inks: Inks) -> bool {
    &&& row.scale >= 1
    &&& text::is_ascii(line)
    &&& text::is_run(*row.run, inks, line, row.scale, top, line.len() as int)
}

/// Lines in ASCII look the same in one color as in two that are equal, whatever the font.
pub proof fn law_ascii_draws_alike(
    buf: Seq<u32>,
    w: u32,
    h: u32,
    rows: Seq<Row>,
    texts: Seq<Seq<char>>,
    tops: Seq<int>,
    inks: Inks,
    c: u32,
    phase_ms: u32,
)
    requires
        w * h <= buf.len(),
        c <= 0xff_ffff,
        texts.len() == rows.len(),
        tops.len() == rows.len(),
        forall|r: int| 0 <= r < rows.len() ==> is_ascii_row(#[trigger] rows[r], texts[r], tops[r], inks),
    ensures
        effect::drawn(buf, w, h, rows, seq![c], Effect::Plain, phase_ms) == effect::drawn(
            buf,
            w,
            h,
            rows,
            seq![c, c],
            Effect::Plain,
            phase_ms,
        ),
{
    assert forall|r: int, i: int|
        0 <= r < rows.len() && 0 <= i < rows[r].run.glyphs@.len() implies (
    #[trigger] rows[r].run.glyphs@[i]).body is Bits by {
        assert(is_ascii_row(rows[r], texts[r], tops[r], inks));
        text::law_ascii_run_is_bitmaps(*rows[r].run, inks, texts[r], rows[r].scale, tops[r]);
    }
    effect::law_equal_colors_draw_alike(buf, w, h, rows, c, phase_ms);
}

// ---- commands ----

/// What the surroundings of the window have to do for a command.
#[derive(Clone, Copy, Debug, PartialEq, Eq, Structural)]
pub enum Action {
    /// Nothing more.
    Done,
    /// Zoom by that many steps.
    Zoom(i32),
    /// Open the line in which a duration is typed.
    Input,
    /// Save.
    Save,
    /// Save, and end.
    Quit,
}

/// The window.
pub struct App {
    pub config: Config,
    pub timer: Timer,
    pub hidden: bool,
    /// Whether the window is being arranged.
    pub edit: bool,
    /// A command to run once, when the timer ends.
    pub armed: Option<String>,
    /// The frame that shows.
    pub last: Option<Look>,
}

/// The timer once it runs, from the beginning where nothing was left to run.
pub open spec fn started(t: Timer) -> Timer {
    Timer {
        running: true,
        ..(if t.done() {
            t.cleared()
        } else {
            t
        })
    }
}

/// The timer after a command.
pub open spec fn timer_after(t: Timer, cmd: Command) -> Timer {
    match cmd {
        Command::Start => started(t),
        Command::Pause => Timer { running: false, ..t },
        Command::Toggle => if t.running {
            Timer { running: false, ..t }
        } else {
            started(t)
        },
        Command::Reset => t.cleared(),
        Command::Preset(n) => Timer {
            running: true,
            ..(Timer { mode: Mode::Countdown, total: n, ..t }).cleared()
        },
        Command::SetMode(m) => if t.mode == m {
            t
        } else {
            (Timer { mode: m, ..t }).cleared()
        },
        _ => t,
    }
}

/// What is configured after a command.
pub open spec fn settings_after(s: config::Settings, cmd: Command) -> config::Settings {
    match cmd {
        Command::SetAlpha(a) => config::Settings { bg_alpha: a, ..s },
        Command::SetPalette(i) => if i < 6 {
            config::Settings {
                color_bg: PALETTES@[i as int].1,
                running: seq![PALETTES@[i as int].2],
                paused: seq![PALETTES@[i as int].3],
                done: seq![PALETTES@[i as int].4],
                ..s
            }
        } else {
            s
        },
        Command::SetIcon(m) => config::Settings { tray_icon: m, ..s },
        Command::SetCentiseconds(b) => config::Settings { centiseconds: b, ..s },
        _ => s,
    }
}

/// What is left to do for a command.
pub open spec fn action_for(cmd: Command) -> Action {
    match cmd {
        Command::ZoomBy(n) => Action::Zoom(n),
        Command::InputTime => Action::Input,
        Command::SetAlpha(_) => Action::Save,
        Command::SetPalette(_) => Action::Save,
        Command::SetIcon(_) => Action::Save,
        Command::SetCentiseconds(_) => Action::Save,
        Command::Quit => Action::Quit,
        _ => Action::Done,
    }
}

/// What is shown, what is played, and what is run, when a timer ends.
pub struct Ending {
    /// The words of the notification, and those on its button.
    pub notice: Option<(String, &'static str)>,
    /// The sound to play, and how loud.
    pub sound: Option<(String, u8)>,
    /// The command to run.
    pub command: Option<String>,
}

/// The words of the notification, and those on its button.
pub open spec fn words_for(ev: Finished) -> (Seq<char>, Seq<char>) {
    match ev {
        Finished::Countdown => ("⏰ 计时结束"@, "再来一次"@),
        Finished::PomodoroWork => ("🍅 专注完成，休息一下"@, "好的"@),
        Finished::PomodoroStep => ("🍅 这一段结束"@, "好的"@),
        Finished::PomodoroBreak => ("☕ 休息结束，继续专注"@, "开始"@),
        Finished::PomodoroLongBreak => ("☕ 长休息结束，进入下一组"@, "开始"@),
        Finished::PomodoroAllDone => ("🍅 番茄钟收工"@, "再来一次"@),
    }
}

fn words_of(ev: Finished) -> (r: (&'static str, &'static str))
    ensures
        (r.0@, r.1@) == words_for(ev),
{
    match ev {
        Finished::Countdown => ("⏰ 计时结束", "再来一次"),
        Finished::PomodoroWork => ("🍅 专注完成，休息一下", "好的"),
        Finished::PomodoroStep => ("🍅 这一段结束", "好的"),
        Finished::PomodoroBreak => ("☕ 休息结束，继续专注", "开始"),
        Finished::PomodoroLongBreak => ("☕ 长休息结束，进入下一组", "开始"),
        Finished::PomodoroAllDone => ("🍅 番茄钟收工", "再来一次"),
    }
}

/// Whether a command runs then: at the end of a countdown, of a round of work, and of it all, but
/// not between two steps or after a break.
pub open spec fn runs_command(ev: Finished) -> bool {
    ev == Finished::Countdown || ev == Finished::PomodoroWork || ev == Finished::PomodoroAllDone
}

/// Does to a timer what a command asks for.
fn drive(timer: &mut Timer, cmd: &Command)
    requires
        old(timer).wf(),
    ensures
        final(timer).wf(),
        *final(timer) == timer_after(*old(timer), *cmd),
{
    match cmd {
        Command::Start => {
            timer.start();
        },
        Command::Pause => {
            timer.pause();
        },
        Command::Toggle => {
            if timer.running {
                timer.pause();
            } else {
                timer.start();
            }
        },
        Command::Reset => {
            timer.reset();
        },
        Command::Preset(n) => {
            timer.start_countdown(*n);
        },
        Command::SetMode(m) => {
            timer.set_mode(*m);
        },
        _ => {},
    }
}

/// Configures what a command asks for.
fn configure(config: &mut Config, cmd: &Command)
    ensures
        final(config)@ == settings_after(old(config)@, *cmd),
{
    match cmd {
        Command::SetAlpha(a) => {
            config.bg_alpha = *a;
        },
        Command::SetPalette(i) => {
            if let Some(p) = palette(*i) {
                config.color_bg = p.bg;
                config.color_running = Gradient::solid(p.running);
                config.color_paused = Gradient::solid(p.paused);
                config.color_done = Gradient::solid(p.done);
            }
        },
        Command::SetIcon(m) => {
            config.tray_icon = *m;
        },
        Command::SetCentiseconds(b) => {
            config.centiseconds = *b;
        },
        _ => {},
    }
}

impl App {
    /// A window with what is configured, and a timer that runs at once where it is to.
    pub fn new(config: Config, autostart: bool) -> (r: Self)
        ensures
            r.config == config,
            r.timer.wf(),
            r.timer.mode == config.mode,
            r.timer.total == config.duration_secs,
            r.timer.running == autostart,
            r.timer.secs == (match config.mode {
                Mode::Countdown => config.duration_secs,
                Mode::Pomodoro => r.timer.pomo.step_len(0),
                _ => 0,
            }),
            r.timer.cs == 0,
            r.timer.finished is None,
            r.timer.last_tick is None,
            r.timer.phase == timer::Phase::Work,
            r.timer.round == 0,
            r.timer.step == 0,
            r.timer.sets == 0,
            !r.timer.cycles_done,
            r.timer.pomo.sounds(config.pomo),
            !r.hidden,
            !r.edit,
            r.armed is None,
            r.last is None,
    {
        let mut timer = Timer::new(config.mode, config.duration_secs);
        timer.set_pomo(&config.pomo);
        if autostart {
            timer.start();
        }
        App { config, timer, hidden: false, edit: false, armed: None, last: None }
    }

    /// Does what a command asks for, as far as it can be done here.
    pub fn handle(&mut self, cmd: Command) -> (r: Action)
        requires
            old(self).timer.wf(),
        ensures
            r == action_for(cmd),
            final(self).timer.wf(),
            final(self).timer == timer_after(old(self).timer, cmd),
            final(self).config@ == settings_after(old(self).config@, cmd),
            final(self).hidden == (match cmd {
                Command::SetHidden(b) => b,
                _ => old(self).hidden,
            }),
            final(self).edit == (match cmd {
                Command::SetEdit(b) => b,
                _ => old(self).edit,
            }),
            final(self).armed == (match cmd {
                Command::ArmFinish(c) => Some(c),
                _ => old(self).armed,
            }),
            final(self).last == old(self).last,
    {
        drive(&mut self.timer, &cmd);
        configure(&mut self.config, &cmd);
        let action = match &cmd {
            Command::ZoomBy(n) => Action::Zoom(*n),
            Command::InputTime => Action::Input,
            Command::SetAlpha(_) | Command::SetPalette(_) | Command::SetIcon(_)
            | Command::SetCentiseconds(_) => Action::Save,
            Command::Quit => Action::Quit,
            _ => Action::Done,
        };
        match cmd {
            Command::SetHidden(b) => {
                self.hidden = b;
            },
            Command::SetEdit(b) => {
                self.edit = b;
            },
            Command::ArmFinish(c) => {
                self.armed = Some(c);
            },
            _ => {},
        }
        action
    }

    /// Takes over a configuration that someone else has written. What a timer that runs is at, it
    /// goes on with; mode, total and rhythm follow the configuration while it stands still.
    pub fn reload(&mut self, config: Config)
        requires
            old(self).timer.wf(),
        ensures
            final(self).timer.wf(),
            final(self).timer.pomo.sounds(config.pomo),
            final(self).timer == old(self).timer.reloaded(
                config.mode,
                config.duration_secs,
                final(self).timer.pomo,
            ),
            *final(self) == (App { config, timer: final(self).timer, ..*old(self) }),
    {
        self.timer.reload(config.mode, config.duration_secs, &config.pomo);
        self.config = config;
    }

    /// What is configured when the program ends: the timer as it was last set, and the window where
    /// it was, if that is known.
    pub fn persist(&mut self, place: Option<(i32, i32)>)
        ensures
            *final(self) == (App {
                config: Config {
                    duration_secs: old(self).timer.total,
                    mode: old(self).timer.mode,
                    window_pos: if place is Some {
                        place
                    } else {
                        old(self).config.window_pos
                    },
                    ..old(self).config
                },
                ..*old(self)
            }),
    {
        self.config.duration_secs = self.timer.total;
        self.config.mode = self.timer.mode;
        if place.is_some() {
            self.config.window_pos = place;
        }
    }

    /// The right button ends the program, but while the window is being arranged it only ends that.
    pub fn right_button(&mut self) -> (r: Action)
        ensures
            r == (if old(self).edit {
                Action::Done
            } else {
                Action::Quit
            }),
            *final(self) == (App { edit: false, ..*old(self) }),
    {
        if self.edit {
            self.edit = false;
            Action::Done
        } else {
            Action::Quit
        }
    }

    /// What follows the end of a timer: a notification, unless it is switched off, the sound that is
    /// configured, and a command, the one that was given for this time or else the one that is
    /// configured. While the window is being arranged nothing follows, and what was given for this
    /// time is kept.
    pub fn finish(&mut self) -> (r: Option<Ending>)
        ensures
            r is Some <==> old(self).timer.finished is Some,
            final(self).timer == (Timer { finished: None, ..old(self).timer }),
            final(self).config == old(self).config,
            final(self).hidden == old(self).hidden,
            final(self).edit == old(self).edit,
            final(self).last == old(self).last,
            match (r, old(self).timer.finished) {
                (Some(e), Some(ev)) => {
                    &&& e.notice is Some <==> !old(self).edit && old(self).config.notify
                    &&& e.notice matches Some((body, button)) ==> button@ == words_for(ev).1 && body@ == (
                    match old(self).config.notify_text {
                        Some(t) => t@,
                        None => words_for(ev).0,
                    })
                    &&& e.sound is Some <==> !old(self).edit && old(self).config.alarm_sound is Some
                    &&& e.sound matches Some((sound, volume)) ==> Some(sound@) == config::text_of(
                        old(self).config.alarm_sound,
                    ) && volume == old(self).config.alarm_volume
                    &&& if old(self).edit || !runs_command(ev) {
                        e.command is None && final(self).armed == old(self).armed
                    } else {
                        final(self).armed is None && config::text_of(e.command) == (if old(
                            self,
                        ).armed is Some {
                            config::text_of(old(self).armed)
                        } else {
                            config::text_of(old(self).config.on_finish)
                        })
                    }
                },
                _ => final(self).armed == old(self).armed,
            },
    {
        let ev = match self.timer.take_finished() {
            Some(ev) => ev,
            None => {
                return None;
            },
        };
        if self.edit {
            return Some(Ending { notice: None, sound: None, command: None });
        }
        let (body, button): (&'static str, &'static str) = words_of(ev);
        let notice: Option<(String, &'static str)> = if self.config.notify {
            let text = match &self.config.notify_text {
                Some(t) => t.clone(),
                None => String::from_str(body),
            };
            Some((text, button))
        } else {
            None
        };
        let sound: Option<(String, u8)> = match &self.config.alarm_sound {
            Some(s) => Some((s.clone(), self.config.alarm_volume)),
            None => None,
        };
        let runs = ev == Finished::Countdown || ev == Finished::PomodoroWork || ev
            == Finished::PomodoroAllDone;
        let command: Option<String> = if !runs {
            None
        } else {
            match self.armed.take() {
                Some(c) => Some(c),
                None => match &self.config.on_finish {
                    Some(c) => Some(c.clone()),
                    None => None,
                },
            }
        };
        Some(Ending { notice, sound, command })
    }

    /// Whether the digits move by themselves.
    pub open spec fn moves(self) -> bool {
        self.config.text_effect == Effect::Liquid || self.config.text_effect == Effect::Aqua
            || digit_stops(self.timer, self.config@).len() > 2
    }

    fn is_moving(&self) -> (r: bool)
        ensures
            r == self.moves(),
    {
        self.config.text_effect.animated() || digit_color(&self.timer, &self.config).animated()
    }

    /// What stands in the status: that the window is being arranged, a line from elsewhere, or what
    /// the timer is doing.
    pub open spec fn status(self, source: Option<Seq<char>>) -> Seq<char> {
        if self.edit {
            "EDIT"@
        } else {
            match source {
                Some(s) => s,
                None => state_text(self.timer),
            }
        }
    }

    /// What the window looks like at the time of day `now`, `ms` milliseconds after what moves began
    /// to. `source` is a line from elsewhere.
    pub fn look(
        &self,
        now: (u32, u32, u32),
        cs: u32,
        ms: u32,
        size: (u32, u32),
        scale: u32,
        source: Option<&str>,
    ) -> (r: Look)
        requires
            self.timer.wf(),
        ensures
            r@ == (Sight {
                text: reading_text(self.timer, self.config@, now, cs),
                status: self.status(config::text_at(source)),
                width: size.0,
                height: size.1,
                scale,
                background: (self.config.color_bg, self.config.bg_alpha),
                digits: digit_stops(self.timer, self.config@),
                effect: self.config.text_effect,
                phase: if self.moves() {
                    ms
                } else {
                    0
                },
            }),
    {
        let status = if self.edit {
            String::from_str("EDIT")
        } else {
            match source {
                Some(s) => String::from_str(s),
                None => state_of(&self.timer),
            }
        };
        let phase: u32 = if self.is_moving() {
            ms
        } else {
            0
        };
        Look {
            text: reading(&self.timer, &self.config, now, cs),
            status,
            width: size.0,
            height: size.1,
            scale,
            background: (self.config.color_bg, self.config.bg_alpha),
            digits: digit_color(&self.timer, &self.config).clone(),
            effect: self.config.text_effect,
            phase,
        }
    }

    /// Takes in what the window looks like now, and says whether that is another frame than the one
    /// that shows.
    pub fn renew(&mut self, look: Look) -> (r: bool)
        ensures
            r == !(old(self).last matches Some(l) && l@ == look@),
            final(self).last matches Some(l) && l@ == look@,
            *final(self) == (App { last: final(self).last, ..*old(self) }),
    {
        if let Some(last) = &self.last {
            if last.same_as(&look) {
                return false;
            }
        }
        self.last = Some(look);
        true
    }

    /// Whether only the text takes clicks.
    pub fn clicks_pass(&self) -> (r: bool)
        ensures
            r == (self.config.click_through && !self.edit),
    {
        self.config.click_through && !self.edit
    }

    /// Milliseconds until the next look at the timer: as few as what shows needs, and a second where
    /// nothing that shows changes by itself.
    pub open spec fn beat(self) -> u64 {
        let clock = self.timer.mode == Mode::Clock;
        let ticks = clock || self.timer.running;
        if self.hidden {
            1000
        } else if ticks && self.config.centiseconds && (clock ==> self.config.clock_seconds) {
            20
        } else if self.moves() {
            50
        } else if clock {
            250
        } else if ticks {
            200
        } else {
            1000
        }
    }

    /// Milliseconds until the next look at the timer.
    pub fn heartbeat(&self) -> (r: u64)
        ensures
            r == self.beat(),
    {
        let clock = self.timer.mode == Mode::Clock;
        let ticks = clock || self.timer.running;
        if self.hidden {
            1000
        } else if ticks && self.config.centiseconds && (!clock || self.config.clock_seconds) {
            20
        } else if self.is_moving() {
            50
        } else if clock {
            250
        } else if ticks {
            200
        } else {
            1000
        }
    }
}

/// A command that sets something can be given again without a difference.
pub proof fn law_settings_repeat(s: config::Settings, cmd: Command)
    ensures
        settings_after(settings_after(s, cmd), cmd) == settings_after(s, cmd),
{
}

/// Starting and pausing by the same button: after two presses the timer runs as before.
pub proof fn law_toggle_twice(t: Timer)
    requires
        !t.done(),
    ensures
        timer_after(timer_after(t, Command::Toggle), Command::Toggle) == t,
{
}

/// The directory that is asked for is taken out of the arguments, the last one where there are
/// several; the other arguments stay in their order.
pub proof fn law_directory_is_taken_out(
    args: Seq<Seq<char>>,
    i: int,
    dir: Option<Seq<char>>,
    rest: Seq<Seq<char>>,
)
    requires
        0 <= i < args.len(),
    ensures
        !strings::begins(args[i], "--config-dir="@) && args[i] != "--config-dir"@ && args[i] != "-C"@
            ==> dir_taken(args, i, dir, rest) == dir_taken(args, i + 1, dir, rest.push(args[i])),
        args[i] == "-C"@ && i + 1 < args.len() ==> dir_taken(args, i, dir, rest) == dir_taken(
            args,
            i + 2,
            Some(args[i + 1]),
            rest,
        ),
        args[i] == "-C"@ && i + 1 == args.len() ==> dir_taken(args, i, dir, rest) is None,
        forall|d: Seq<char>| #![trigger "--config-dir="@ + d]
            args[i] == "--config-dir="@ + d ==> dir_taken(args, i, dir, rest) == dir_taken(
                args,
                i + 1,
                Some(d),
                rest,
            ),
        dir_taken(args, args.len() as int, dir, rest) == Some((dir, rest)),
{
    reveal_strlit("-C");
    reveal_strlit("--config-dir=");
    reveal_strlit("--config-dir");
    assert forall|d: Seq<char>| #![trigger "--config-dir="@ + d]
        args[i] == "--config-dir="@ + d implies dir_taken(args, i, dir, rest) == dir_taken(
        args,
        i + 1,
        Some(d),
        rest,
    ) by {
        let front = "--config-dir="@;
        assert(args[i].subrange(0, front.len() as int) =~= front);
        assert(args[i].subrange(front.len() as int, args[i].len() as int) =~= d);
    }
}

/// A line stands in the middle: as far from the left as from the right, but for a pixel, or at the
/// left edge where it is wider than the canvas.
pub proof fn law_line_is_in_the_middle(width: int, line: int)
    requires
        0 <= line,
        0 <= width,
    ensures
        line <= width ==> {
            let right = width - line - line_left(width, line);
            line_left(width, line) <= right <= line_left(width, line) + 1
        },
        line > width ==> line_left(width, line) == 0,
{
}

/// The rectangle of both lines is no larger than it has to be: it begins and ends where one of them
/// does, or at the edge of the canvas, and reaches from the top of the digits to the foot of the
/// status.
pub proof fn law_box_is_tight(width: int, height: int, scale: int, digits: int, status: int)
    requires
        0 <= width,
        0 <= height,
        0 <= scale,
        0 <= digits,
        0 <= status,
    ensures
        ({
            let (x, y, w, h) = text_box(width, height, scale, digits, status);
            let (a, b) = (line_left(width, digits), line_left(width, status));
            &&& x == a || x == b
            &&& x <= a && x <= b
            &&& x + w == width || x + w == a + digits || x + w == b + status
            &&& y == digits_top(height, scale)
            &&& 28 * scale <= height ==> y + h == status_top(height, scale) + 8 * scale
        }),
{
}

/// The next look is never far away, and the sooner the faster what shows changes: hundredths within
/// 20 milliseconds, what moves within 50, and a second that counts within a quarter of one.
pub proof fn law_next_look_is_in_time(a: App)
    ensures
        20 <= a.beat() <= 1000,
        a.hidden ==> a.beat() == 1000,
        !a.hidden && a.moves() ==> a.beat() <= 50,
        !a.hidden && a.timer.mode == Mode::Clock ==> a.beat() <= 250,
        !a.hidden && a.timer.running ==> a.beat() <= 250,
        !a.hidden && a.timer.running && a.timer.mode != Mode::Clock && a.config.centiseconds ==> a.beat()
            == 20,
        !a.hidden && !a.timer.running && a.timer.mode != Mode::Clock && !a.moves() ==> a.beat() == 1000,
{
}

/// What commands do to the timer: one that has run out starts from its beginning, and one that has not
/// goes on; a pause keeps what it reads; a preset is a countdown of its own that runs at once; and
/// another mode stands at its beginning.
pub proof fn law_commands_on_the_timer(t: Timer, n: u32, m: Mode)
    ensures
        timer_after(t, Command::Start).running,
        !t.done() ==> timer_after(t, Command::Start) == (Timer { running: true, ..t }),
        t.done() && t.mode == Mode::Countdown ==> timer_after(t, Command::Start).secs == t.total,
        timer_after(t, Command::Pause) == (Timer { running: false, ..t }),
        timer_after(timer_after(t, Command::Pause), Command::Pause) == timer_after(t, Command::Pause),
        ({
            let p = timer_after(t, Command::Preset(n));
            p.running && p.mode == Mode::Countdown && p.total == n && p.secs == n && p.cs == 0
        }),
        ({
            let r = timer_after(t, Command::Reset);
            &&& !r.running && r.mode == t.mode && r.cs == 0
            &&& t.mode == Mode::Countdown ==> r.secs == t.total
            &&& t.mode == Mode::Stopwatch ==> r.secs == 0
        }),
        m == t.mode ==> timer_after(t, Command::SetMode(m)) == t,
        m != t.mode ==> timer_after(t, Command::SetMode(m)).mode == m && !timer_after(
            t,
            Command::SetMode(m),
        ).running,
        timer_after(t, Command::Quit) == t,
{
}

} // verus!
