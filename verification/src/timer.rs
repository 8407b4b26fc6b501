//! The timer's state machine: countdown, stopwatch, pomodoro and clock.
//!
//! Whole seconds are state (`Timer::secs`) and so is the part below a second (`Timer::cs`).
//! Both move on in the same `Timer::tick_at`, so a reading to the hundredth never disagrees with
//! the reading in seconds. A moment is a count of microseconds from a start that never changes.
use crate::strings::same;
use vstd::prelude::*;

verus! {

/// What the timer does.
#[derive(Clone, Copy, PartialEq, Eq, Debug, Structural)]
pub enum Mode {
    /// Runs from `total` down to zero, stops there and reports that it is over.
    Countdown,
    /// Runs from zero up and never stops by itself.
    Stopwatch,
    /// Work and breaks in turn, with a report at the end of each phase.
    Pomodoro,
    /// Shows the time of day, which is read when it is drawn.
    Clock,
}

/// The mode with the name `name` in the configuration and on the command line.
pub open spec fn mode_named(name: Seq<char>) -> Option<Mode> {
    if name == "countdown"@ {
        Some(Mode::Countdown)
    } else if name == "stopwatch"@ {
        Some(Mode::Stopwatch)
    } else if name == "pomodoro"@ {
        Some(Mode::Pomodoro)
    } else if name == "clock"@ {
        Some(Mode::Clock)
    } else {
        None
    }
}

impl Mode {
    /// The name of the mode.
    pub open spec fn text(self) -> Seq<char> {
        match self {
            Mode::Countdown => "countdown"@,
            Mode::Stopwatch => "stopwatch"@,
            Mode::Pomodoro => "pomodoro"@,
            Mode::Clock => "clock"@,
        }
    }

    /// The mode with this name in the configuration and on the command line.
    pub fn from_name(name: &str) -> (r: Option<Mode>)
        ensures
            r == mode_named(name@),
    {
        if same(name, "countdown") {
            Some(Mode::Countdown)
        } else if same(name, "stopwatch") {
            Some(Mode::Stopwatch)
        } else if same(name, "pomodoro") {
            Some(Mode::Pomodoro)
        } else if same(name, "clock") {
            Some(Mode::Clock)
        } else {
            None
        }
    }

    /// The name of the mode.
    pub fn name(self) -> (r: &'static str)
        ensures
            r@ == self.text(),
    {
        match self {
            Mode::Countdown => "countdown",
            Mode::Stopwatch => "stopwatch",
            Mode::Pomodoro => "pomodoro",
            Mode::Clock => "clock",
        }
    }
}

/// The name of each mode leads back to that mode.
pub proof fn law_mode_names_roundtrip(mode: Mode)
    ensures
        mode_named(mode.text()) == Some(mode),
{
    reveal_strlit("countdown");
    reveal_strlit("stopwatch");
    reveal_strlit("pomodoro");
    reveal_strlit("clock");
    assert("countdown"@[0] == 'c' && "stopwatch"@[0] == 's');
    match mode {
        Mode::Countdown => {},
        Mode::Stopwatch => {},
        Mode::Pomodoro => {
            assert("pomodoro"@.len() == 8);
        },
        Mode::Clock => {
            assert("clock"@.len() == 5);
        },
    }
}

/// A phase of the pomodoro.
#[derive(Clone, Copy, PartialEq, Eq, Debug, Structural)]
pub enum Phase {
    Work,
    /// The short break between two rounds.
    Break,
    /// The long break after `Pomo::rounds` rounds of work.
    LongBreak,
}

/// The rhythm of the pomodoro.
#[derive(Clone, Debug, PartialEq, Eq)]
pub struct Pomo {
    /// Seconds of work.
    pub work: u32,
    /// Seconds of a short break.
    pub short_break: u32,
    /// Seconds of a long break; with 0 there is none, and each break is short.
    pub long_break: u32,
    /// How many rounds of work come before a long break: the length of a set.
    pub rounds: u32,
    /// After how many sets the pomodoro ends; with 0 it never does.
    pub cycles: u32,
    /// The steps of a rhythm of one's own. Where there are any, they take the place of the four
    /// lengths above: one step runs after the other, and `cycles` passes through all of them end
    /// the pomodoro.
    pub seq: Vec<u32>,
}

/// The larger of `n` and 1.
pub open spec fn at_least_one(n: u32) -> u32 {
    if n == 0 {
        1
    } else {
        n
    }
}

impl Pomo {
    /// The length of step `i`; the length of the work where there is no such step.
    pub open spec fn step_len(self, i: int) -> u32 {
        if 0 <= i < self.seq@.len() {
            self.seq@[i]
        } else {
            at_least_one(self.work)
        }
    }

    /// No phase is over the moment it begins.
    pub open spec fn wf(self) -> bool {
        &&& self.work >= 1
        &&& self.short_break >= 1
        &&& self.rounds >= 1
        &&& forall|i: int| 0 <= i < self.seq@.len() ==> #[trigger] self.seq@[i] >= 1
    }

    /// Whether this is the rhythm `given`, in which a length or a number of rounds of 0 counts as 1.
    pub open spec fn sounds(self, given: Pomo) -> bool {
        &&& self.work == at_least_one(given.work)
        &&& self.short_break == at_least_one(given.short_break)
        &&& self.long_break == given.long_break
        &&& self.rounds == at_least_one(given.rounds)
        &&& self.cycles == given.cycles
        &&& self.seq@ == given.seq@.map_values(|s: u32| at_least_one(s))
    }

    /// Whether two rhythms are the same.
    pub open spec fn equals(self, other: Pomo) -> bool {
        &&& self.work == other.work
        &&& self.short_break == other.short_break
        &&& self.long_break == other.long_break
        &&& self.rounds == other.rounds
        &&& self.cycles == other.cycles
        &&& self.seq@ == other.seq@
    }

    /// The rhythm in which no phase is over the moment it begins: a length or a number of rounds of
    /// 0 counts as 1.
    pub fn sound(&self) -> (r: Pomo)
        ensures
            r.sounds(*self),
            r.wf(),
    {
        let mut seq: Vec<u32> = Vec::new();
        let mut i: usize = 0;
        while i < self.seq.len()
            invariant
                i <= self.seq.len(),
                seq@.len() == i,
                forall|j: int| 0 <= j < i ==> #[trigger] seq@[j] == at_least_one(self.seq@[j]),
            decreases self.seq.len() - i,
        {
            let s: u32 = self.seq[i];
            seq.push(if s == 0 { 1 } else { s });
            i = i + 1;
        }
        assert(seq@ =~= self.seq@.map_values(|s: u32| at_least_one(s)));
        Pomo {
            work: if self.work == 0 { 1 } else { self.work },
            short_break: if self.short_break == 0 { 1 } else { self.short_break },
            long_break: self.long_break,
            rounds: if self.rounds == 0 { 1 } else { self.rounds },
            cycles: self.cycles,
            seq,
        }
    }

    /// Whether two rhythms are the same.
    pub fn same_as(&self, other: &Pomo) -> (r: bool)
        ensures
            r == self.equals(*other),
    {
        if self.work != other.work || self.short_break != other.short_break || self.long_break
            != other.long_break || self.rounds != other.rounds || self.cycles != other.cycles
            || self.seq.len() != other.seq.len() {
            return false;
        }
        let mut i: usize = 0;
        while i < self.seq.len()
            invariant
                i <= self.seq@.len(),
                self.seq@.len() == other.seq@.len(),
                forall|k: int| 0 <= k < i ==> self.seq@[k] == other.seq@[k],
            decreases self.seq@.len() - i,
        {
            if self.seq[i] != other.seq[i] {
                return false;
            }
            i = i + 1;
        }
        assert(self.seq@ =~= other.seq@);
        true
    }

    /// Whether the steps of `seq` set the rhythm.
    pub fn is_seq(&self) -> (r: bool)
        ensures
            r == (self.seq@.len() > 0),
    {
        !self.seq.is_empty()
    }

    /// The length of step `i`; the length of the work, at least a second, where there is no such
    /// step.
    pub fn step_secs(&self, i: usize) -> (r: u32)
        ensures
            r == self.step_len(i as int),
    {
        if i < self.seq.len() {
            self.seq[i]
        } else if self.work == 0 {
            1
        } else {
            self.work
        }
    }
}

/// The most steps that the configuration takes for `Pomo::seq`.
pub const MAX_POMO_STEPS: usize = 16;

impl Default for Pomo {
    fn default() -> (r: Self)
        ensures
            r.work == 1500,
            r.short_break == 300,
            r.long_break == 900,
            r.rounds == 4,
            r.cycles == 0,
            r.seq@ == Seq::<u32>::empty(),
    {
        Pomo { work: 1500, short_break: 300, long_break: 900, rounds: 4, cycles: 0, seq: Vec::new() }
    }
}

/// What came to its end.
#[derive(Clone, Copy, PartialEq, Eq, Debug, Structural)]
pub enum Finished {
    /// The countdown reached zero.
    Countdown,
    /// A round of work is over.
    PomodoroWork,
    /// A step of `Pomo::seq` is over, and another follows.
    PomodoroStep,
    /// A short break is over.
    PomodoroBreak,
    /// A long break is over, and the next set begins.
    PomodoroLongBreak,
    /// The last set is over.
    PomodoroAllDone,
}

/// The state of the timer.
pub struct Timer {
    pub mode: Mode,
    /// The length of the countdown in seconds; kept while another mode is on.
    pub total: u32,
    /// Seconds that are left in a countdown or a phase, or that the stopwatch has run.
    pub secs: u32,
    /// Hundredths of a second that have passed since `secs` last changed.
    pub cs: u32,
    pub running: bool,
    /// The last end that nobody has taken yet.
    pub finished: Option<Finished>,
    /// Up to which moment the state has been moved on.
    pub last_tick: Option<u64>,
    pub phase: Phase,
    /// Rounds of work that are over, in all sets together.
    pub round: u32,
    /// The step of `Pomo::seq` that is on, from 0.
    pub step: usize,
    /// How often all the steps of `Pomo::seq` have run.
    pub sets: u32,
    pub pomo: Pomo,
    /// Whether the last set is over.
    pub cycles_done: bool,
}

impl Timer {
    /// What every method keeps: fewer than a hundred hundredths, a rhythm in which no phase is
    /// empty, and a step that exists.
    pub open spec fn wf(self) -> bool {
        &&& self.cs < 100
        &&& self.pomo.wf()
        &&& self.step < usize::MAX
        &&& self.mode == Mode::Pomodoro && self.pomo.seq@.len() > 0 ==> self.step
            < self.pomo.seq@.len()
    }

    /// The state after a reset.
    pub open spec fn cleared(self) -> Timer {
        let base = Timer {
            running: false,
            cs: 0,
            finished: None,
            last_tick: None,
            ..self
        };
        match self.mode {
            Mode::Countdown => Timer { secs: self.total, ..base },
            Mode::Stopwatch | Mode::Clock => Timer { secs: 0, ..base },
            Mode::Pomodoro => Timer {
                phase: Phase::Work,
                secs: self.pomo.step_len(0),
                round: 0,
                step: 0,
                sets: 0,
                cycles_done: false,
                ..base
            },
        }
    }

    /// Whether there is nothing left to run.
    pub open spec fn done(self) -> bool {
        match self.mode {
            Mode::Countdown => self.secs == 0,
            Mode::Pomodoro => self.cycles_done,
            _ => false,
        }
    }

    /// The state after the step that is on has ended.
    pub open spec fn step_over(self) -> Timer {
        let wraps = self.step + 1 >= self.pomo.seq@.len();
        let step: usize = if wraps {
            0
        } else {
            (self.step + 1) as usize
        };
        let sets: u32 = if wraps {
            (self.sets + 1) as u32
        } else {
            self.sets
        };
        if wraps && self.pomo.cycles > 0 && sets >= self.pomo.cycles {
            Timer {
                step,
                sets,
                running: false,
                cycles_done: true,
                secs: 0,
                finished: Some(Finished::PomodoroAllDone),
                ..self
            }
        } else {
            Timer {
                step,
                sets,
                secs: self.pomo.step_len(step as int),
                finished: Some(Finished::PomodoroStep),
                ..self
            }
        }
    }

    /// The state after the phase that is on has ended.
    pub open spec fn phase_over(self) -> Timer {
        let rounds = self.pomo.rounds;
        if self.phase == Phase::Work {
            let round = (self.round + 1) as u32;
            let long = round % rounds == 0 && self.pomo.long_break > 0;
            Timer {
                round,
                finished: Some(Finished::PomodoroWork),
                phase: if long {
                    Phase::LongBreak
                } else {
                    Phase::Break
                },
                secs: if long {
                    self.pomo.long_break
                } else {
                    self.pomo.short_break
                },
                ..self
            }
        } else {
            let long = self.phase == Phase::LongBreak;
            let at_boundary = long || self.round % rounds == 0;
            if at_boundary && self.pomo.cycles > 0 && self.round / rounds >= self.pomo.cycles {
                Timer {
                    running: false,
                    cycles_done: true,
                    finished: Some(Finished::PomodoroAllDone),
                    ..self
                }
            } else {
                Timer {
                    phase: Phase::Work,
                    secs: self.pomo.work,
                    finished: Some(
                        if long {
                            Finished::PomodoroLongBreak
                        } else {
                            Finished::PomodoroBreak
                        },
                    ),
                    ..self
                }
            }
        }
    }

    /// `secs` after one more second of a countdown, which stays at zero.
    pub open spec fn one_less(self) -> u32 {
        if self.secs > 0 {
            (self.secs - 1) as u32
        } else {
            0
        }
    }

    /// The state one second later.
    pub open spec fn ticked(self) -> Timer {
        let down = Timer { secs: self.one_less(), ..self };
        if !self.running {
            self
        } else {
            match self.mode {
                Mode::Countdown => if self.secs == 1 {
                    Timer { running: false, finished: Some(Finished::Countdown), ..down }
                } else {
                    down
                },
                Mode::Pomodoro => if down.secs > 0 {
                    down
                } else if self.pomo.seq@.len() > 0 {
                    down.step_over()
                } else {
                    down.phase_over()
                },
                Mode::Stopwatch => Timer {
                    secs: if self.secs == u32::MAX {
                        u32::MAX
                    } else {
                        (self.secs + 1) as u32
                    },
                    ..self
                },
                Mode::Clock => self,
            }
        }
    }

    /// The state `n` seconds later; a timer that stops stays where it stopped.
    pub open spec fn ticks(self, n: nat) -> Timer
        decreases n,
    {
        if n == 0 || !self.running {
            self
        } else {
            self.ticked().ticks((n - 1) as nat)
        }
    }

    /// Whole hundredths of a second between the last moment and `now`.
    pub open spec fn centis_until(self, now: u64) -> int {
        match self.last_tick {
            Some(last) => if now >= last {
                (now - last) / 10_000
            } else {
                0
            },
            None => 0,
        }
    }

    /// Whole seconds that the reading moves on by at `now`.
    pub open spec fn seconds_until(self, now: u64) -> int {
        (self.cs + self.centis_until(now)) / 100
    }

    /// The state at the moment `now`. The first moment, and each moment at which the timer stands
    /// still, only sets the moment to count from. What is below a hundredth stays uncounted: the
    /// moment to count from moves on by whole hundredths.
    pub open spec fn advanced(self, now: u64) -> Timer {
        match self.last_tick {
            None => Timer { last_tick: Some(now), ..self },
            Some(last) => if !self.running {
                Timer { last_tick: Some(now), ..self }
            } else {
                let centis = self.centis_until(now);
                if centis == 0 {
                    self
                } else {
                    Timer {
                        last_tick: Some((last + centis * 10_000) as u64),
                        cs: ((self.cs + centis) % 100) as u32,
                        ..self
                    }.ticks(self.seconds_until(now) as nat)
                }
            },
        }
    }

    /// The reading in hundredths of a second.
    pub open spec fn centis(self) -> int {
        let whole: int = if self.secs * 100 > u32::MAX {
            u32::MAX as int
        } else {
            self.secs * 100
        };
        match self.mode {
            Mode::Stopwatch => if whole + self.cs > u32::MAX {
                u32::MAX as int
            } else {
                whole + self.cs
            },
            Mode::Countdown | Mode::Pomodoro => if whole < self.cs {
                0
            } else {
                whole - self.cs
            },
            Mode::Clock => whole,
        }
    }

    /// A timer in the mode `mode` that stands still.
    pub fn new(mode: Mode, total: u32) -> (r: Self)
        ensures
            r.wf(),
            r.mode == mode,
            r.total == total,
            r.secs == (match mode {
                Mode::Countdown => total,
                Mode::Pomodoro => 1500,
                _ => 0,
            }),
            r.cs == 0,
            !r.running,
            r.finished is None,
            r.last_tick is None,
            r.phase == Phase::Work,
            r.round == 0,
            r.step == 0,
            r.sets == 0,
            !r.cycles_done,
            r.pomo.work == 1500,
            r.pomo.short_break == 300,
            r.pomo.long_break == 900,
            r.pomo.rounds == 4,
            r.pomo.cycles == 0,
            r.pomo.seq@.len() == 0,
    {
        let mut t = Timer {
            mode,
            total,
            secs: 0,
            cs: 0,
            running: false,
            finished: None,
            last_tick: None,
            phase: Phase::Work,
            round: 0,
            step: 0,
            sets: 0,
            pomo: Pomo::default(),
            cycles_done: false,
        };
        t.reset();
        t
    }

    /// The reading in seconds.
    pub fn display_secs(&self) -> (r: u32)
        ensures
            r == self.secs,
    {
        self.secs
    }

    /// The reading in hundredths of a second. A countdown reads what is left, rounded down.
    pub fn display_centis(&self) -> (r: u32)
        ensures
            r == self.centis(),
    {
        let whole: u32 = if self.secs > u32::MAX / 100 {
            u32::MAX
        } else {
            self.secs * 100
        };
        match self.mode {
            Mode::Stopwatch => whole.saturating_add(self.cs),
            Mode::Countdown | Mode::Pomodoro => whole.saturating_sub(self.cs),
            Mode::Clock => whole,
        }
    }

    /// How far a countdown has come, in percent; nowhere in any other mode.
    pub open spec fn share(self) -> int {
        if self.mode == Mode::Countdown && self.secs < self.total {
            (self.total - self.secs) * 100 / (self.total as int)
        } else {
            0
        }
    }

    /// How far a countdown has come, in percent.
    pub fn progress(&self) -> (r: u8)
        ensures
            r == self.share(),
            r <= 100,
    {
        let counts = match self.mode {
            Mode::Countdown => true,
            _ => false,
        };
        if !counts || self.secs >= self.total {
            return 0;
        }
        let gone: u64 = (self.total - self.secs) as u64;
        let total: u64 = self.total as u64;
        assert(0 <= (gone * 100) / (total as int) <= 100) by (nonlinear_arith)
            requires
                0 <= gone <= total,
                0 < total,
        ;
        (gone * 100 / total) as u8
    }

    /// Whether there is nothing left to run: a countdown at zero, or a pomodoro after its last set.
    pub fn is_done(&self) -> (r: bool)
        ensures
            r == self.done(),
    {
        match self.mode {
            Mode::Countdown => self.secs == 0,
            Mode::Pomodoro => self.cycles_done,
            Mode::Stopwatch | Mode::Clock => false,
        }
    }

    /// Starts the timer, from the beginning where nothing was left to run.
    pub fn start(&mut self)
        requires
            old(self).wf(),
        ensures
            final(self).wf(),
            *final(self) == (Timer {
                running: true,
                ..(if old(self).done() {
                    old(self).cleared()
                } else {
                    *old(self)
                })
            }),
    {
        if self.is_done() {
            self.reset();
        }
        self.running = true;
    }

    /// Stops the timer where it is.
    pub fn pause(&mut self)
        ensures
            *final(self) == (Timer { running: false, ..*old(self) }),
    {
        self.running = false;
    }

    /// Back to the beginning, standing still.
    pub fn reset(&mut self)
        requires
            old(self).wf(),
        ensures
            final(self).wf(),
            *final(self) == old(self).cleared(),
    {
        match self.mode {
            Mode::Countdown => {
                self.secs = self.total;
            },
            Mode::Stopwatch | Mode::Clock => {
                self.secs = 0;
            },
            Mode::Pomodoro => {
                self.phase = Phase::Work;
                self.secs = self.pomo.step_secs(0);
                self.round = 0;
                self.step = 0;
                self.sets = 0;
                self.cycles_done = false;
            },
        }
        self.running = false;
        self.cs = 0;
        self.finished = None;
        self.last_tick = None;
    }

    /// Runs a countdown of `total` seconds from its beginning.
    pub fn start_countdown(&mut self, total: u32)
        requires
            old(self).wf(),
        ensures
            final(self).wf(),
            *final(self) == (Timer {
                running: true,
                ..(Timer { mode: Mode::Countdown, total, ..*old(self) }).cleared()
            }),
    {
        self.mode = Mode::Countdown;
        self.total = total;
        self.reset();
        self.running = true;
    }

    /// Switches to another mode and resets; the mode that is on already changes nothing.
    pub fn set_mode(&mut self, mode: Mode)
        requires
            old(self).wf(),
        ensures
            final(self).wf(),
            *final(self) == (if old(self).mode == mode {
                *old(self)
            } else {
                (Timer { mode, ..*old(self) }).cleared()
            }),
    {
        if self.mode == mode {
            return ;
        }
        self.mode = mode;
        match self.mode {
            Mode::Pomodoro => {
                self.step = 0;
            },
            _ => {},
        }
        self.reset();
    }

    /// Takes over a rhythm, and resets in the pomodoro mode. A length or a number of rounds of 0
    /// counts as 1, so that no phase is over the moment it begins; `long_break` and `cycles` keep
    /// their 0, which turns them off.
    pub fn set_pomo(&mut self, pomo: &Pomo)
        requires
            old(self).wf(),
        ensures
            final(self).wf(),
            final(self).pomo.sounds(*pomo),
            *final(self) == (if old(self).mode == Mode::Pomodoro {
                (Timer { pomo: final(self).pomo, ..*old(self) }).cleared()
            } else {
                (Timer { pomo: final(self).pomo, ..*old(self) })
            }),
    {
        let reset = match self.mode {
            Mode::Pomodoro => true,
            _ => false,
        };
        if reset {
            self.step = 0;
        }
        self.pomo = pomo.sound();
        if reset {
            self.reset();
        }
    }

    /// The state once the configuration says something else, a mode, a total and a rhythm. A timer
    /// that runs goes on as it is, and what comes after the phase that is on goes by the new rhythm.
    /// One that stands still begins anew where what it runs has changed.
    pub open spec fn reloaded(self, mode: Mode, total: u32, pomo: Pomo) -> Timer {
        if self.running {
            Timer {
                pomo,
                step: if self.mode == Mode::Pomodoro && 0 < pomo.seq@.len() <= self.step {
                    0
                } else {
                    self.step
                },
                ..self
            }
        } else {
            let next = Timer { mode, total, pomo, ..self };
            let anew = mode != self.mode || (mode == Mode::Countdown && total != self.total) || (mode
                == Mode::Pomodoro && !pomo.equals(self.pomo));
            if anew {
                next.cleared()
            } else {
                next
            }
        }
    }

    /// Takes over what the configuration says now.
    pub fn reload(&mut self, mode: Mode, total: u32, pomo: &Pomo)
        requires
            old(self).wf(),
        ensures
            final(self).wf(),
            final(self).pomo.sounds(*pomo),
            *final(self) == old(self).reloaded(mode, total, final(self).pomo),
    {
        let pomo = pomo.sound();
        if self.running {
            if self.mode == Mode::Pomodoro && pomo.seq.len() > 0 && self.step >= pomo.seq.len() {
                self.step = 0;
            }
            self.pomo = pomo;
            return ;
        }
        let anew = mode != self.mode || (mode == Mode::Countdown && total != self.total) || (mode
            == Mode::Pomodoro && !pomo.same_as(&self.pomo));
        self.mode = mode;
        self.total = total;
        self.pomo = pomo;
        if anew {
            if mode == Mode::Pomodoro {
                self.step = 0;
            }
            self.reset();
        }
    }

    /// The word for what is on in the pomodoro.
    pub open spec fn pomo_label(self) -> Seq<char> {
        if self.pomo.seq@.len() > 0 {
            "POMO"@
        } else {
            match self.phase {
                Phase::Work => "WORK"@,
                Phase::Break => "BREAK"@,
                Phase::LongBreak => "LONG"@,
            }
        }
    }

    /// Which of its kind it is: the step, the round within its set, or the set.
    pub open spec fn pomo_number(self) -> int {
        if self.pomo.seq@.len() > 0 {
            (self.step + 1) as u32 as int
        } else {
            let done: int = if self.round == 0 {
                0
            } else {
                self.round - 1
            };
            match self.phase {
                Phase::Work => self.round as int % self.pomo.rounds as int + 1,
                Phase::Break => done % self.pomo.rounds as int + 1,
                Phase::LongBreak => done / self.pomo.rounds as int + 1,
            }
        }
    }

    /// The label and the number of the phase for the status line. The number counts the rounds of
    /// a set, for a long break the sets, and for steps the steps.
    pub fn pomo_status(&self) -> (r: (&'static str, u32))
        requires
            self.wf(),
        ensures
            r.0@ == self.pomo_label(),
            r.1 == self.pomo_number(),
    {
        if self.pomo.is_seq() {
            let n: usize = self.step + 1;
            return ("POMO", #[verifier::truncate] (n as u32));
        }
        let rounds: u32 = self.pomo.rounds;
        let done: u32 = self.round.saturating_sub(1);
        match self.phase {
            Phase::Work => ("WORK", self.round % rounds + 1),
            Phase::Break => ("BREAK", done % rounds + 1),
            Phase::LongBreak => {
                assert(done / rounds <= done) by (nonlinear_arith)
                    requires
                        rounds >= 1,
                ;
                ("LONG", done / rounds + 1)
            },
        }
    }

    /// The step that is on, from 0; `None` but for a pomodoro of steps.
    pub fn pomo_step(&self) -> (r: Option<usize>)
        ensures
            r == (if self.mode == Mode::Pomodoro && self.pomo.seq@.len() > 0 {
                Some(self.step)
            } else {
                None::<usize>
            }),
    {
        if self.mode == Mode::Pomodoro && self.pomo.is_seq() {
            Some(self.step)
        } else {
            None
        }
    }

    /// Goes to step `i`, running on if the timer runs. Without such a step nothing changes, and
    /// the result is `false`.
    pub fn goto_step(&mut self, i: usize) -> (r: bool)
        requires
            old(self).wf(),
        ensures
            final(self).wf(),
            r == (old(self).mode == Mode::Pomodoro && i < old(self).pomo.seq@.len()),
            *final(self) == (if r {
                Timer {
                    step: i,
                    secs: old(self).pomo.seq@[i as int],
                    cs: 0,
                    cycles_done: false,
                    finished: None,
                    last_tick: None,
                    ..*old(self)
                }
            } else {
                *old(self)
            }),
    {
        if self.pomo_step().is_none() || i >= self.pomo.seq.len() {
            return false;
        }
        self.step = i;
        self.secs = self.pomo.step_secs(i);
        self.cs = 0;
        self.cycles_done = false;
        self.finished = None;
        self.last_tick = None;
        true
    }

    /// Ends the step that is on.
    fn tick_seq(&mut self)
        requires
            old(self).wf(),
            old(self).mode == Mode::Pomodoro,
            old(self).pomo.seq@.len() > 0,
            old(self).sets < u32::MAX,
        ensures
            final(self).wf(),
            *final(self) == old(self).step_over(),
    {
        if self.step + 1 >= self.pomo.seq.len() {
            self.step = 0;
            self.sets = self.sets + 1;
            if self.pomo.cycles > 0 && self.sets >= self.pomo.cycles {
                self.running = false;
                self.cycles_done = true;
                self.secs = 0;
                self.finished = Some(Finished::PomodoroAllDone);
                return ;
            }
        } else {
            self.step = self.step + 1;
        }
        self.secs = self.pomo.step_secs(self.step);
        self.finished = Some(Finished::PomodoroStep);
    }

    /// Takes the report of an end; each end is reported once.
    pub fn take_finished(&mut self) -> (r: Option<Finished>)
        ensures
            r == old(self).finished,
            *final(self) == (Timer { finished: None, ..*old(self) }),
    {
        let r = self.finished;
        self.finished = None;
        r
    }

    /// Moves the state on by one second.
    pub fn tick(&mut self)
        requires
            old(self).wf(),
            old(self).round < u32::MAX,
            old(self).sets < u32::MAX,
        ensures
            final(self).wf(),
            *final(self) == old(self).ticked(),
    {
        if !self.running {
            return ;
        }
        match self.mode {
            Mode::Countdown => {
                if self.secs > 0 {
                    self.secs = self.secs - 1;
                    if self.secs == 0 {
                        self.running = false;
                        self.finished = Some(Finished::Countdown);
                    }
                }
            },
            Mode::Pomodoro => {
                if self.secs > 0 {
                    self.secs = self.secs - 1;
                }
                if self.secs > 0 {
                    return ;
                }
                if self.pomo.is_seq() {
                    self.tick_seq();
                    return ;
                }
                let rounds: u32 = self.pomo.rounds;
                match self.phase {
                    Phase::Work => {
                        self.round = self.round + 1;
                        self.finished = Some(Finished::PomodoroWork);
                        if self.round % rounds == 0 && self.pomo.long_break > 0 {
                            self.phase = Phase::LongBreak;
                            self.secs = self.pomo.long_break;
                        } else {
                            self.phase = Phase::Break;
                            self.secs = self.pomo.short_break;
                        }
                    },
                    Phase::Break | Phase::LongBreak => {
                        let long = self.phase == Phase::LongBreak;
                        let at_boundary = long || self.round % rounds == 0;
                        let sets: u32 = self.round / rounds;
                        if at_boundary && self.pomo.cycles > 0 && sets >= self.pomo.cycles {
                            self.running = false;
                            self.cycles_done = true;
                            self.finished = Some(Finished::PomodoroAllDone);
                        } else {
                            self.phase = Phase::Work;
                            self.secs = self.pomo.work;
                            self.finished = Some(
                                if long {
                                    Finished::PomodoroLongBreak
                                } else {
                                    Finished::PomodoroBreak
                                },
                            );
                        }
                    },
                }
            },
            Mode::Stopwatch => {
                self.secs = self.secs.saturating_add(1);
            },
            Mode::Clock => {},
        }
    }

    /// Moves the state on to the moment `now`; called whenever the picture is drawn.
    pub fn maybe_tick(&mut self, now: u64)
        requires
            old(self).wf(),
            old(self).round + old(self).seconds_until(now) <= u32::MAX,
            old(self).sets + old(self).seconds_until(now) <= u32::MAX,
        ensures
            final(self).wf(),
            *final(self) == old(self).advanced(now),
    {
        self.tick_at(now);
    }

    /// Moves the state on to the moment `now`.
    pub fn tick_at(&mut self, now: u64)
        requires
            old(self).wf(),
            old(self).round + old(self).seconds_until(now) <= u32::MAX,
            old(self).sets + old(self).seconds_until(now) <= u32::MAX,
        ensures
            final(self).wf(),
            *final(self) == old(self).advanced(now),
    {
        let last: u64 = match self.last_tick {
            None => {
                self.last_tick = Some(now);
                return ;
            },
            Some(last) => last,
        };
        if !self.running {
            self.last_tick = Some(now);
            return ;
        }
        let centis: u64 = now.saturating_sub(last) / 10_000;
        if centis == 0 {
            return ;
        }
        self.last_tick = Some(last + centis * 10_000);
        let total: u64 = self.cs as u64 + centis;
        self.cs = (total % 100) as u32;
        let mut whole: u64 = total / 100;
        let ghost base = *self;
        let ghost all = whole;
        while whole > 0 && self.running
            invariant
                self.wf(),
                self.ticks(whole as nat) == base.ticks(all as nat),
                self.round + whole <= u32::MAX,
                self.sets + whole <= u32::MAX,
            decreases whole,
        {
            let ghost before = *self;
            self.tick();
            proof {
                lemma_tick_counts(before);
            }
            whole = whole - 1;
        }
    }
}

/// A second adds at most one round and one set.
proof fn lemma_tick_counts(t: Timer)
    requires
        t.round < u32::MAX,
        t.sets < u32::MAX,
    ensures
        t.ticked().round <= t.round + 1,
        t.ticked().sets <= t.sets + 1,
{
}

/// A second leaves the hundredths, the moment to count from and the rhythm alone, and depends on
/// neither of the first two.
proof fn lemma_tick_frame(t: Timer, cs: u32, last: Option<u64>)
    ensures
        (Timer { cs, last_tick: last, ..t }).ticked() == (Timer { cs, last_tick: last, ..t.ticked() }),
        t.ticked().cs == t.cs,
        t.ticked().last_tick == t.last_tick,
        t.ticked().pomo == t.pomo,
        t.ticked().mode == t.mode,
        t.ticked().total == t.total,
{
}

/// `lemma_tick_frame` for any number of seconds.
proof fn lemma_ticks_frame(t: Timer, n: nat, cs: u32, last: Option<u64>)
    ensures
        (Timer { cs, last_tick: last, ..t }).ticks(n) == (Timer { cs, last_tick: last, ..t.ticks(n) }),
        t.ticks(n).cs == t.cs,
        t.ticks(n).last_tick == t.last_tick,
        t.ticks(n).pomo == t.pomo,
        t.ticks(n).mode == t.mode,
        t.ticks(n).total == t.total,
    decreases n,
{
    if n > 0 && t.running {
        lemma_tick_frame(t, cs, last);
        lemma_ticks_frame(t.ticked(), (n - 1) as nat, cs, last);
    }
}

/// Seconds add up: `a` seconds and then `b` seconds are `a + b` seconds.
pub proof fn law_ticks_add(t: Timer, a: nat, b: nat)
    ensures
        t.ticks(a).ticks(b) == t.ticks(a + b),
    decreases a,
{
    if a > 0 && t.running {
        law_ticks_add(t.ticked(), (a - 1) as nat, b);
    } else if a > 0 {
        assert(!t.running);
        assert(t.ticks(b) == t);
    }
}

/// Nothing is lost between two readings: a timer that is still running at `t1` shows at `t2` what
/// it would show had nobody looked at `t1`.
pub proof fn law_no_drift(t: Timer, t1: u64, t2: u64)
    requires
        t.wf(),
        t.running,
        t.last_tick is Some,
        t.last_tick->0 <= t1 <= t2,
        t.advanced(t1).running,
    ensures
        t.advanced(t1).advanced(t2) == t.advanced(t2),
{
    let last = t.last_tick->0;
    let c1 = t.centis_until(t1);
    let c2 = t.centis_until(t2);
    let u = t.advanced(t1);
    if c1 == 0 {
        assert(u == t);
    } else {
        let last1 = (last + c1 * 10_000) as u64;
        assert(c1 * 10_000 <= t1 - last);
        let cs1 = ((t.cs + c1) % 100) as u32;
        let s1 = ((t.cs + c1) / 100) as nat;
        let base1 = Timer { last_tick: Some(last1), cs: cs1, ..t };
        lemma_ticks_frame(t, s1, cs1, Some(last1));
        assert(u == base1.ticks(s1));
        assert(u.last_tick == Some(last1) && u.cs == cs1);
        let d = u.centis_until(t2);
        assert(d == (t2 - last1) / 10_000);
        assert(d == c2 - c1);
        let cs2 = ((t.cs + c2) % 100) as u32;
        let last2 = (last + c2 * 10_000) as u64;
        assert(c2 * 10_000 <= t2 - last);
        let s2 = ((t.cs + c2) / 100) as nat;
        assert((cs1 + d) % 100 == cs2 as int);
        let e = ((cs1 + d) / 100) as nat;
        assert(s1 + e == s2);
        law_ticks_add(t, s1, e);
        lemma_ticks_frame(t, s2, cs2, Some(last2));
        lemma_ticks_frame(t.ticks(s1), e, cs2, Some(last2));
        if d == 0 {
            assert(cs2 == cs1);
            assert(last2 == last1);
            assert(e == 0);
            assert(t.advanced(t2) == (Timer { last_tick: Some(last2), cs: cs2, ..t }).ticks(s2));
        } else {
            assert((last1 + d * 10_000) as u64 == last2);
            assert(u.advanced(t2) == (Timer { last_tick: Some(last2), cs: cs2, ..u }).ticks(e));
            assert((Timer { last_tick: Some(last2), cs: cs2, ..u }) == (Timer {
                last_tick: Some(last2),
                cs: cs2,
                ..t.ticks(s1)
            }));
        }
    }
}

/// A timer that stands still keeps its reading, however much time goes by.
pub proof fn law_pause_freezes(t: Timer, now: u64)
    requires
        !t.running,
    ensures
        t.advanced(now).secs == t.secs,
        t.advanced(now).cs == t.cs,
        t.advanced(now).centis() == t.centis(),
        t.advanced(now).finished == t.finished,
        t.advanced(now).last_tick == Some(now),
{
}

/// A countdown loses one second per second, and at zero it stops and reports its end.
pub proof fn law_countdown(t: Timer, n: nat)
    requires
        t.mode == Mode::Countdown,
        t.running,
        t.secs > 0,
    ensures
        n < t.secs ==> t.ticks(n) == (Timer { secs: (t.secs - n) as u32, ..t }),
        n >= t.secs ==> t.ticks(n) == (Timer {
            secs: 0,
            running: false,
            finished: Some(Finished::Countdown),
            ..t
        }),
    decreases n,
{
    if n > 0 {
        if t.secs > 1 {
            law_countdown(t.ticked(), (n - 1) as nat);
        } else {
            assert(!t.ticked().running);
            assert(t.ticked().ticks((n - 1) as nat) == t.ticked());
        }
    }
}

/// A stopwatch gains one second per second and never stops or reports an end by itself.
pub proof fn law_stopwatch(t: Timer, n: nat)
    requires
        t.mode == Mode::Stopwatch,
        t.running,
        t.secs + n <= u32::MAX,
    ensures
        t.ticks(n) == (Timer { secs: (t.secs + n) as u32, ..t }),
    decreases n,
{
    if n > 0 {
        law_stopwatch(t.ticked(), (n - 1) as nat);
    }
}

/// A clock never moves on and never reports an end.
pub proof fn law_clock_never_ticks(t: Timer, n: nat)
    requires
        t.mode == Mode::Clock,
    ensures
        t.ticks(n) == t,
    decreases n,
{
    if n > 0 && t.running {
        law_clock_never_ticks(t.ticked(), (n - 1) as nat);
    }
}

/// A pomodoro without a number of sets never ends.
pub proof fn law_endless_pomodoro(t: Timer, n: nat)
    requires
        t.mode == Mode::Pomodoro,
        t.pomo.cycles == 0,
        t.running,
    ensures
        t.ticks(n).running,
        t.ticks(n).cycles_done == t.cycles_done,
    decreases n,
{
    if n > 0 {
        law_endless_pomodoro(t.ticked(), (n - 1) as nat);
    }
}

/// What a second keeps.
proof fn lemma_tick_wf(t: Timer)
    requires
        t.wf(),
    ensures
        t.ticked().wf(),
{
    assert(t.pomo.seq.len() == t.pomo.seq@.len());
}

/// A running pomodoro never stands at an empty phase: a second ends at most one phase, and the
/// next one has at least a second to run.
pub proof fn law_phases_have_length(t: Timer)
    requires
        t.wf(),
        t.mode == Mode::Pomodoro,
        t.running,
        t.ticked().running,
    ensures
        t.ticked().wf(),
        t.ticked().secs >= 1,
{
    lemma_tick_wf(t);
}

/// The seconds of the break after the round `k`, counted from 1: after each set a long one, where
/// there are any.
pub open spec fn break_secs(pomo: Pomo, k: nat) -> nat {
    if k % (pomo.rounds as nat) == 0 && pomo.long_break > 0 {
        pomo.long_break as nat
    } else {
        pomo.short_break as nat
    }
}

/// The seconds of the first `k` rounds, each with its work and the break after it.
pub open spec fn rounds_secs(pomo: Pomo, k: nat) -> nat
    decreases k,
{
    if k == 0 {
        0
    } else {
        rounds_secs(pomo, (k - 1) as nat) + pomo.work as nat + break_secs(pomo, k)
    }
}

/// A phase of a pomodoro, or a step of its sequence, loses one second per second, and the second
/// that takes the last of it ends it.
pub proof fn law_phase_runs_down(t: Timer, n: nat)
    requires
        t.mode == Mode::Pomodoro,
        t.running,
        n <= t.secs,
        t.secs > 0,
    ensures
        n < t.secs ==> t.ticks(n) == (Timer { secs: (t.secs - n) as u32, ..t }),
        n == t.secs ==> t.ticks(n) == (if t.pomo.seq@.len() > 0 {
            (Timer { secs: 0, ..t }).step_over()
        } else {
            (Timer { secs: 0, ..t }).phase_over()
        }),
    decreases n,
{
    if n > 0 {
        if t.secs > 1 {
            law_phase_runs_down(t.ticked(), (n - 1) as nat);
        } else {
            assert(t.ticked().ticks(0) == t.ticked());
        }
    }
}

/// A round that is not the last of the last set leads to the work of the next.
proof fn lemma_not_over(k: nat, rounds: nat, cycles: nat)
    requires
        rounds > 0,
        k < cycles * rounds,
    ensures
        k / rounds < cycles,
{
    assert(k / rounds < cycles) by (nonlinear_arith)
        requires
            rounds > 0,
            k < cycles * rounds,
    ;
}

/// The state at the end of the round after `t`, which stands at the beginning of a round.
proof fn lemma_round(t: Timer)
    requires
        t.wf(),
        t.mode == Mode::Pomodoro,
        t.running,
        t.pomo.seq@.len() == 0,
        t.phase == Phase::Work,
        t.secs == t.pomo.work,
        t.round < u32::MAX,
    ensures
        ({
            let k = (t.round + 1) as nat;
            let long = k % (t.pomo.rounds as nat) == 0 && t.pomo.long_break > 0;
            t.ticks(t.pomo.work as nat + break_secs(t.pomo, k)) == (Timer {
                secs: 0,
                round: k as u32,
                phase: if long {
                    Phase::LongBreak
                } else {
                    Phase::Break
                },
                finished: Some(Finished::PomodoroWork),
                ..t
            }).phase_over()
        }),
{
    let k = (t.round + 1) as nat;
    let rest = break_secs(t.pomo, k);
    law_phase_runs_down(t, t.pomo.work as nat);
    let at_break = t.ticks(t.pomo.work as nat);
    assert(at_break == (Timer { secs: 0, ..t }).phase_over());
    assert(at_break.secs == rest);
    law_phase_runs_down(at_break, rest);
    law_ticks_add(t, t.pomo.work as nat, rest);
}

/// A pomodoro that was just begun stands, when `k` rounds with their breaks are over, at the
/// beginning of the work of the next round, unless that is where its last set ends.
pub proof fn law_pomodoro_rounds(t: Timer, k: nat)
    requires
        t.wf(),
        t.mode == Mode::Pomodoro,
        t.running,
        t.pomo.seq@.len() == 0,
        t.phase == Phase::Work,
        t.secs == t.pomo.work,
        t.round == 0,
        k <= u32::MAX,
        t.pomo.cycles > 0 ==> k < t.pomo.cycles * t.pomo.rounds,
    ensures
        t.ticks(rounds_secs(t.pomo, k)) == (Timer {
            round: k as u32,
            finished: t.ticks(rounds_secs(t.pomo, k)).finished,
            ..t
        }),
    decreases k,
{
    if k > 0 {
        let before = (k - 1) as nat;
        law_pomodoro_rounds(t, before);
        let u = t.ticks(rounds_secs(t.pomo, before));
        lemma_round(u);
        law_ticks_add(t, rounds_secs(t.pomo, before), t.pomo.work as nat + break_secs(t.pomo, k));
        if t.pomo.cycles > 0 {
            lemma_not_over(k, t.pomo.rounds as nat, t.pomo.cycles as nat);
        }
    }
}

/// A pomodoro with a number of sets stops when the last break of the last of them is over, and says
/// so.
pub proof fn law_pomodoro_ends(t: Timer)
    requires
        t.wf(),
        t.mode == Mode::Pomodoro,
        t.running,
        t.pomo.seq@.len() == 0,
        t.phase == Phase::Work,
        t.secs == t.pomo.work,
        t.round == 0,
        t.pomo.cycles > 0,
        t.pomo.cycles * t.pomo.rounds <= u32::MAX,
    ensures
        ({
            let all = (t.pomo.cycles * t.pomo.rounds) as nat;
            let end = t.ticks(rounds_secs(t.pomo, all));
            &&& !end.running
            &&& end.done()
            &&& end.round == all
            &&& end.secs == 0
            &&& end.finished == Some(Finished::PomodoroAllDone)
        }),
{
    let (c, r) = (t.pomo.cycles as nat, t.pomo.rounds as nat);
    let all = (t.pomo.cycles * t.pomo.rounds) as nat;
    assert(all == c * r && all >= 1 && all % r == 0 && all / r == c) by (nonlinear_arith)
        requires
            all == c * r,
            c >= 1,
            r >= 1,
    ;
    let before = (all - 1) as nat;
    law_pomodoro_rounds(t, before);
    let u = t.ticks(rounds_secs(t.pomo, before));
    lemma_round(u);
    law_ticks_add(t, rounds_secs(t.pomo, before), t.pomo.work as nat + break_secs(t.pomo, all));
}

/// The seconds of one set: the work of each round with a short break after it, but for the break
/// that ends the set, which is the long one where there are any.
pub open spec fn set_secs(pomo: Pomo) -> int {
    pomo.rounds * pomo.work + (pomo.rounds - 1) * pomo.short_break + (if pomo.long_break > 0 {
        pomo.long_break
    } else {
        pomo.short_break
    })
}

/// The first `j` rounds of the set after `m` whole ones, where that set goes on after them.
proof fn lemma_rounds_of_set(pomo: Pomo, m: nat, j: nat)
    requires
        pomo.rounds > 0,
        j < pomo.rounds,
    ensures
        rounds_secs(pomo, m * pomo.rounds as nat + j) == rounds_secs(pomo, m * pomo.rounds as nat)
            + j * (pomo.work + pomo.short_break),
    decreases j,
{
    let r = pomo.rounds as nat;
    if j > 0 {
        lemma_rounds_of_set(pomo, m, (j - 1) as nat);
        vstd::arithmetic::div_mod::lemma_fundamental_div_mod_converse_mod(
            (m * r + j) as int,
            r as int,
            m as int,
            j as int,
        );
        assert(j * (pomo.work + pomo.short_break) == (j - 1) * (pomo.work + pomo.short_break)
            + pomo.work + pomo.short_break) by (nonlinear_arith);
    } else {
        assert(0 * (pomo.work + pomo.short_break) == 0);
    }
}

/// The rounds of `m` whole sets.
proof fn lemma_sets(pomo: Pomo, m: nat)
    requires
        pomo.rounds > 0,
    ensures
        rounds_secs(pomo, m * pomo.rounds as nat) == m * set_secs(pomo),
    decreases m,
{
    let (w, s, r) = (pomo.work as int, pomo.short_break as int, pomo.rounds as nat);
    if m > 0 {
        let before = (m - 1) as nat;
        lemma_sets(pomo, before);
        lemma_rounds_of_set(pomo, before, (r - 1) as nat);
        assert(m * r == before * r + (r - 1) + 1 && m * r >= 1 && (m * r) % r == 0)
            by (nonlinear_arith)
            requires
                m == before + 1,
                r >= 1,
        ;
        assert(r * w == (r - 1) * w + w) by (nonlinear_arith);
        assert((r - 1) * (w + s) == (r - 1) * w + (r - 1) * s) by (nonlinear_arith);
        assert(m * set_secs(pomo) == before * set_secs(pomo) + set_secs(pomo)) by (nonlinear_arith)
            requires
                m == before + 1,
        ;
    } else {
        assert(0 * set_secs(pomo) == 0);
        assert(0 * r == 0);
    }
}

/// A timer that has stopped stays as it is.
proof fn lemma_ran_till(t: Timer, k: nat, n: nat)
    requires
        t.ticks(n).running,
        k <= n,
    ensures
        t.ticks(k).running,
{
    law_ticks_add(t, k, (n - k) as nat);
}

/// A pomodoro that still runs is not done.
proof fn lemma_runs_undone(t: Timer, n: nat)
    requires
        t.mode == Mode::Pomodoro,
        !t.cycles_done,
        t.ticks(n).running,
    ensures
        !t.ticks(n).done(),
    decreases n,
{
    if n > 0 && t.running {
        if t.ticked().running {
            lemma_runs_undone(t.ticked(), (n - 1) as nat);
        }
    }
}

/// A pomodoro with a number of sets that was just begun lasts as long as its sets together: it runs
/// at every second before, and that second stops it, with nothing left to show and the news that
/// all is done.
pub proof fn law_pomodoro_lasts(t: Timer)
    requires
        t.wf(),
        t.mode == Mode::Pomodoro,
        t.running,
        !t.cycles_done,
        t.pomo.seq@.len() == 0,
        t.phase == Phase::Work,
        t.secs == t.pomo.work,
        t.round == 0,
        t.pomo.cycles > 0,
        t.pomo.cycles * t.pomo.rounds <= u32::MAX,
    ensures
        forall|k: nat|
            k < t.pomo.cycles * set_secs(t.pomo) ==> (#[trigger] t.ticks(k)).running && !t.ticks(
                k,
            ).done(),
        ({
            let end = t.ticks((t.pomo.cycles * set_secs(t.pomo)) as nat);
            &&& !end.running
            &&& end.done()
            &&& end.secs == 0
            &&& end.finished == Some(Finished::PomodoroAllDone)
        }),
{
    let (c, r) = (t.pomo.cycles as nat, t.pomo.rounds as nat);
    let all = (t.pomo.cycles * t.pomo.rounds) as nat;
    lemma_sets(t.pomo, c);
    law_pomodoro_ends(t);
    assert(all >= 1) by (nonlinear_arith)
        requires
            all == c * r,
            c >= 1,
            r >= 1,
    ;
    let before = (all - 1) as nat;
    law_pomodoro_rounds(t, before);
    let spent = rounds_secs(t.pomo, before);
    let u = t.ticks(spent);
    let work = t.pomo.work as nat;
    let rest = break_secs(t.pomo, all);
    law_phase_runs_down(u, work);
    let at_break = u.ticks(work);
    law_phase_runs_down(at_break, (rest - 1) as nat);
    law_ticks_add(u, work, (rest - 1) as nat);
    law_ticks_add(t, spent, (work + rest - 1) as nat);
    assert(rounds_secs(t.pomo, all) == spent + work + rest);
    assert forall|k: nat| k < t.pomo.cycles * set_secs(t.pomo) implies (#[trigger] t.ticks(
        k,
    )).running && !t.ticks(k).done() by {
        lemma_ran_till(t, k, (spent + work + rest - 1) as nat);
        lemma_runs_undone(t, k);
    }
}

/// A timer that runs is not cut off by another configuration: it goes on in its mode, where it is.
pub proof fn law_reload_cuts_nothing_off(t: Timer, mode: Mode, total: u32, pomo: Pomo)
    requires
        t.running,
    ensures
        ({
            let r = t.reloaded(mode, total, pomo);
            &&& r.running
            &&& r.mode == t.mode
            &&& r.total == t.total
            &&& r.secs == t.secs
            &&& r.cs == t.cs
            &&& r.phase == t.phase
            &&& r.round == t.round
            &&& r.finished == t.finished
            &&& r.last_tick == t.last_tick
            &&& r.done() == t.done()
        }),
{
}

/// A configuration that says what holds already changes nothing.
pub proof fn law_reload_of_the_same(t: Timer)
    requires
        t.wf(),
    ensures
        t.reloaded(t.mode, t.total, t.pomo) == t,
{
}

/// A countdown has come as far as the seconds that are gone are of all of them, in percent, rounded
/// down.
pub proof fn law_share_of_countdown(t: Timer)
    requires
        t.mode == Mode::Countdown,
        t.secs <= t.total,
        0 < t.total,
    ensures
        0 <= t.share() <= 100,
        t.share() * t.total <= 100 * (t.total - t.secs) < (t.share() + 1) * t.total,
{
    let (gone, all) = (t.total - t.secs, t.total as int);
    let q = gone * 100 / all;
    vstd::arithmetic::div_mod::lemma_fundamental_div_mod(gone * 100, all);
    assert(q * all == all * q && (q + 1) * all == all * q + all) by (nonlinear_arith);
    assert(0 <= q <= 100) by (nonlinear_arith)
        requires
            q == gone * 100 / all,
            0 <= gone <= all,
            0 < all,
    ;
    if gone == 0 {
        assert(q == 0) by (nonlinear_arith)
            requires
                q == gone * 100 / all,
                gone == 0,
                0 < all,
        ;
    }
}

/// A stopwatch reads its seconds and the hundredths that have passed of the next one; a countdown its
/// seconds without the hundredths that have passed.
pub proof fn law_hundredths_are_read(t: Timer)
    requires
        t.cs < 100,
        t.secs < 40_000_000,
    ensures
        t.mode == Mode::Stopwatch ==> t.centis() / 100 == t.secs && t.centis() % 100 == t.cs,
        (t.mode == Mode::Countdown || t.mode == Mode::Pomodoro) && t.secs > 0 ==> t.centis() + t.cs == 100
            * t.secs,
{
}

/// The rounds of a pomodoro are counted from one within each set: the work and the break after it have
/// the same number, and a long break has that of the set that it ends.
pub proof fn law_rounds_are_counted(t: Timer)
    requires
        t.pomo.seq@.len() == 0,
        0 < t.pomo.rounds,
    ensures
        t.phase == Phase::Work ==> 1 <= t.pomo_number() <= t.pomo.rounds && (t.round - (t.pomo_number() - 1))
            % (t.pomo.rounds as int) == 0,
        t.phase == Phase::Break && t.round > 0 ==> 1 <= t.pomo_number() <= t.pomo.rounds && (t.round
            - t.pomo_number()) % (t.pomo.rounds as int) == 0,
        t.phase == Phase::LongBreak && t.round > 0 && t.round % t.pomo.rounds == 0 ==> t.pomo_number()
            * t.pomo.rounds == t.round,
{
    let (r, n) = (t.round as int, t.pomo.rounds as int);
    let d = r - 1;
    vstd::arithmetic::div_mod::lemma_fundamental_div_mod(r, n);
    vstd::arithmetic::div_mod::lemma_fundamental_div_mod(d, n);
    assert((r - r % n) % n == 0) by {
        vstd::arithmetic::div_mod::lemma_mod_multiples_basic(r / n, n);
        assert(r - r % n == r / n * n) by (nonlinear_arith)
            requires
                r == n * (r / n) + r % n,
        ;
    }
    assert((d - d % n) % n == 0) by {
        vstd::arithmetic::div_mod::lemma_mod_multiples_basic(d / n, n);
        assert(d - d % n == d / n * n) by (nonlinear_arith)
            requires
                d == n * (d / n) + d % n,
        ;
    }
    if r > 0 && r % n == 0 {
        let q = r / n;
        assert(r == n * q);
        assert((q - 1) * n + (n - 1) == r - 1) by (nonlinear_arith)
            requires
                r == n * q,
        ;
        vstd::arithmetic::div_mod::lemma_fundamental_div_mod_converse(d, n, q - 1, n - 1);
        assert(q * n == n * q) by (nonlinear_arith);
    }
}

} // verus!
