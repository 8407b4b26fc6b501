//! What a command line asks for, and how it reaches a run of the program that is already there.
use crate::config;
use crate::config::{absolute, join_path, Config};
use crate::parse;
use crate::parse::{parse_absolute, parse_duration, secs_until};
use crate::strings;
use crate::strings::{chars_of, same, split_fields, string_of, strip_front, utf8_text};
use crate::timer::Mode;
use crate::tray::Command;
use vstd::prelude::*;

verus! {

/// What stands between two arguments on their way. A space would not do: `1h 30m` is one argument.
pub const SEP: char = '\u{1f}';

/// A line has fewer bytes than this.
pub const MAX_LINE: usize = 4096;

/// The byte that says that a line has arrived.
pub const ACK: u8 = 75;

/// What a command line asks for.
#[derive(Clone, Debug, PartialEq, Eq)]
pub struct Intent {
    pub mode: Option<Mode>,
    /// A length in seconds.
    pub duration: Option<u32>,
    /// Whether to start at once.
    pub autostart: bool,
    /// Whether the window hides; it is set, not turned over.
    pub hidden: Option<bool>,
    /// A command to run once, when the timer ends.
    pub and_then: Option<String>,
    /// Whether the window is being arranged.
    pub edit: Option<bool>,
    /// Whether hundredths of a second show.
    pub centiseconds: Option<bool>,
    pub pause: bool,
    pub toggle: bool,
    pub reset: bool,
    /// Whether to open the line in which a duration is typed.
    pub input: bool,
}

/// What a command line asks for.
pub ghost struct Wish {
    pub mode: Option<Mode>,
    pub duration: Option<u32>,
    pub autostart: bool,
    pub hidden: Option<bool>,
    pub and_then: Option<Seq<char>>,
    pub edit: Option<bool>,
    pub centiseconds: Option<bool>,
    pub pause: bool,
    pub toggle: bool,
    pub reset: bool,
    pub input: bool,
}

impl View for Intent {
    type V = Wish;

    open spec fn view(&self) -> Wish {
        Wish {
            mode: self.mode,
            duration: self.duration,
            autostart: self.autostart,
            hidden: self.hidden,
            and_then: config::text_of(self.and_then),
            edit: self.edit,
            centiseconds: self.centiseconds,
            pause: self.pause,
            toggle: self.toggle,
            reset: self.reset,
            input: self.input,
        }
    }
}

/// No wish at all.
pub open spec fn nothing() -> Wish {
    Wish {
        mode: None,
        duration: None,
        autostart: false,
        hidden: None,
        and_then: None,
        edit: None,
        centiseconds: None,
        pause: false,
        toggle: false,
        reset: false,
        input: false,
    }
}

impl Default for Intent {
    fn default() -> (r: Self)
        ensures
            r@ == nothing(),
    {
        Intent {
            mode: None,
            duration: None,
            autostart: false,
            hidden: None,
            and_then: None,
            edit: None,
            centiseconds: None,
            pause: false,
            toggle: false,
            reset: false,
            input: false,
        }
    }
}

/// The mode that a flag names.
pub open spec fn mode_flag(arg: Seq<char>) -> Option<Mode> {
    if arg == "-s"@ || arg == "--stopwatch"@ {
        Some(Mode::Stopwatch)
    } else if arg == "-c"@ || arg == "--countdown"@ {
        Some(Mode::Countdown)
    } else if arg == "-p"@ || arg == "--pomodoro"@ {
        Some(Mode::Pomodoro)
    } else if arg == "-k"@ || arg == "--clock"@ {
        Some(Mode::Clock)
    } else {
        None
    }
}

/// `w` and what the flag `arg` asks for, where it is one.
pub open spec fn flagged(arg: Seq<char>, w: Wish) -> Option<Wish> {
    if mode_flag(arg) is Some {
        Some(Wish { mode: mode_flag(arg), ..w })
    } else if arg == "-r"@ || arg == "--running"@ {
        Some(Wish { autostart: true, ..w })
    } else if arg == "--hide"@ {
        Some(Wish { hidden: Some(true), ..w })
    } else if arg == "--show"@ {
        Some(Wish { hidden: Some(false), ..w })
    } else if arg == "--edit"@ {
        Some(Wish { edit: Some(true), ..w })
    } else if arg == "--no-edit"@ {
        Some(Wish { edit: Some(false), ..w })
    } else if arg == "--centis"@ {
        Some(Wish { centiseconds: Some(true), ..w })
    } else if arg == "--no-centis"@ {
        Some(Wish { centiseconds: Some(false), ..w })
    } else if arg == "--pause"@ {
        Some(Wish { pause: true, ..w })
    } else if arg == "--toggle"@ {
        Some(Wish { toggle: true, ..w })
    } else if arg == "--reset"@ {
        Some(Wish { reset: true, ..w })
    } else if arg == "--input"@ {
        Some(Wish { input: true, ..w })
    } else {
        None
    }
}

/// The seconds that an argument writes, as a length or as a time of day that is still to come.
pub open spec fn seconds(arg: Seq<char>, now: (u32, u32, u32)) -> Option<u32> {
    match parse::duration(arg) {
        Some(n) => Some(n),
        None => match parse::absolute(arg) {
            Some(t) => Some(parse::until(t, now) as u32),
            None => None,
        },
    }
}

/// What is said where the command behind `--and` is missing.
pub const NO_COMMAND: &'static str = "--and 后面要跟一条命令";

/// What is said of an argument that means nothing.
pub const UNKNOWN: &'static str = "无法识别的参数: ";

/// `w` and what the arguments from `i` on ask for, or what is wrong with the first that is wrong.
/// Of two that ask for the same thing the later counts.
pub open spec fn wished(args: Seq<Seq<char>>, i: int, w: Wish, now: (u32, u32, u32)) -> Result<
    Wish,
    Seq<char>,
>
    decreases args.len() - i,
{
    if i < 0 || i >= args.len() {
        Ok(w)
    } else if flagged(args[i], w) is Some {
        wished(args, i + 1, flagged(args[i], w)->0, now)
    } else if args[i] == "--and"@ || args[i] == "--then"@ {
        if i + 1 < args.len() {
            wished(args, i + 2, Wish { and_then: Some(args[i + 1]), ..w }, now)
        } else {
            Err(NO_COMMAND@)
        }
    } else if strings::begins(args[i], "--and="@) {
        wished(
            args,
            i + 1,
            Wish { and_then: Some(args[i].subrange("--and="@.len() as int, args[i].len() as int)), ..w },
            now,
        )
    } else {
        match seconds(args[i], now) {
            Some(n) => wished(args, i + 1, Wish { duration: Some(n), ..w }, now),
            None => Err(UNKNOWN@ + args[i]),
        }
    }
}

/// The wish or the words that a result holds.
pub open spec fn outcome(r: Result<Intent, String>) -> Result<Wish, Seq<char>> {
    match r {
        Ok(i) => Ok(i@),
        Err(e) => Err(e@),
    }
}

fn mode_of(arg: &str) -> (r: Option<Mode>)
    ensures
        r == mode_flag(arg@),
{
    if same(arg, "-s") || same(arg, "--stopwatch") {
        Some(Mode::Stopwatch)
    } else if same(arg, "-c") || same(arg, "--countdown") {
        Some(Mode::Countdown)
    } else if same(arg, "-p") || same(arg, "--pomodoro") {
        Some(Mode::Pomodoro)
    } else if same(arg, "-k") || same(arg, "--clock") {
        Some(Mode::Clock)
    } else {
        None
    }
}

/// The seconds that an argument writes.
fn seconds_of(arg: &str, now: (u32, u32, u32)) -> (r: Option<u32>)
    requires
        parse::second_of_day(now) <= 86_400,
    ensures
        r == seconds(arg@, now),
{
    match parse_duration(arg) {
        Some(n) => Some(n),
        None => match parse_absolute(arg) {
            Some(t) => Some(secs_until(t, now)),
            None => None,
        },
    }
}

/// Adds a command, where there is one.
fn give(out: &mut Vec<Command>, cmd: Option<Command>)
    ensures
        final(out)@ == old(out)@ + once(cmd is Some, cmd->0),
{
    if let Some(c) = cmd {
        out.push(c);
    }
    assert(out@ =~= old(out)@ + once(cmd is Some, cmd->0));
}

/// Adds a command, where it is asked for.
fn give_if(out: &mut Vec<Command>, asked: bool, cmd: Command)
    ensures
        final(out)@ == old(out)@ + once(asked, cmd),
{
    if asked {
        out.push(cmd);
    }
    assert(out@ =~= old(out)@ + once(asked, cmd));
}

impl Intent {
    /// Takes in a flag, where `arg` is one.
    fn flag(&mut self, arg: &str) -> (r: bool)
        ensures
            r == (flagged(arg@, old(self)@) is Some),
            match flagged(arg@, old(self)@) {
                Some(w) => final(self)@ == w,
                None => final(self)@ == old(self)@,
            },
    {
        if let Some(mode) = mode_of(arg) {
            self.mode = Some(mode);
        } else if same(arg, "-r") || same(arg, "--running") {
            self.autostart = true;
        } else if same(arg, "--hide") {
            self.hidden = Some(true);
        } else if same(arg, "--show") {
            self.hidden = Some(false);
        } else if same(arg, "--edit") {
            self.edit = Some(true);
        } else if same(arg, "--no-edit") {
            self.edit = Some(false);
        } else if same(arg, "--centis") {
            self.centiseconds = Some(true);
        } else if same(arg, "--no-centis") {
            self.centiseconds = Some(false);
        } else if same(arg, "--pause") {
            self.pause = true;
        } else if same(arg, "--toggle") {
            self.toggle = true;
        } else if same(arg, "--reset") {
            self.reset = true;
        } else if same(arg, "--input") {
            self.input = true;
        } else {
            return false;
        }
        true
    }

    /// What the arguments ask for at the time of day `now`. An argument that means nothing is an
    /// error, and nothing is done then.
    pub fn parse(args: &[String], now: (u32, u32, u32)) -> (r: Result<Intent, String>)
        requires
            parse::second_of_day(now) <= 86_400,
        ensures
            outcome(r) == wished(config::texts(args@), 0, nothing(), now),
    {
        let mut intent = Intent::default();
        let mut i: usize = 0;
        let ghost all = config::texts(args@);
        while i < args.len()
            invariant
                i <= args@.len(),
                all == config::texts(args@),
                parse::second_of_day(now) <= 86_400,
                wished(all, 0, nothing(), now) == wished(all, i as int, intent@, now),
            decreases args@.len() - i,
        {
            let arg = args[i].as_str();
            assert(all[i as int] == arg@);
            let ghost before = intent@;
            if !intent.flag(arg) {
                if same(arg, "--and") || same(arg, "--then") {
                    i = i + 1;
                    if i >= args.len() {
                        return Err(String::from_str(NO_COMMAND));
                    }
                    assert(all[i as int] == args@[i as int]@);
                    intent.and_then = Some(args[i].clone());
                } else {
                    let c = chars_of(arg);
                    if let Some(v) = strip_front(&c, "--and=") {
                        intent.and_then = Some(string_of(v));
                    } else {
                        match seconds_of(arg, now) {
                            Some(n) => {
                                intent.duration = Some(n);
                            },
                            None => {
                                let mut words = String::from_str(UNKNOWN);
                                words.append(arg);
                                return Err(words);
                            },
                        }
                    }
                }
            }
            i = i + 1;
        }
        Ok(intent)
    }

    /// What is configured once this is asked for.
    pub open spec fn over(self, c: Config) -> Config {
        Config {
            mode: match self.mode {
                Some(m) => m,
                None => c.mode,
            },
            duration_secs: match self.duration {
                Some(n) => n,
                None => c.duration_secs,
            },
            centiseconds: match self.centiseconds {
                Some(b) => b,
                None => c.centiseconds,
            },
            ..c
        }
    }

    /// Puts what is asked for over what is configured, and says whether to start at once. What is
    /// not asked for stays.
    pub fn apply(&self, config: &mut Config) -> (r: bool)
        ensures
            *final(config) == self.over(*old(config)),
            r == self.autostart,
    {
        if let Some(mode) = self.mode {
            config.mode = mode;
        }
        if let Some(secs) = self.duration {
            config.duration_secs = secs;
        }
        if let Some(on) = self.centiseconds {
            config.centiseconds = on;
        }
        self.autostart
    }

    /// What a run that is already there is to do, in this order: first what shows, then the mode
    /// and the length, then what becomes of the timer, and last what follows its end. Without a
    /// length `-r` starts what is there.
    pub open spec fn orders(self) -> Seq<Command> {
        once(self.hidden is Some, Command::SetHidden(self.hidden->0)) + once(
            self.edit is Some,
            Command::SetEdit(self.edit->0),
        ) + once(self.input, Command::InputTime) + once(
            self.mode is Some,
            Command::SetMode(self.mode->0),
        ) + once(self.duration is Some, Command::Preset(self.duration->0)) + once(
            self.duration is None && self.autostart,
            Command::Start,
        ) + once(self.centiseconds is Some, Command::SetCentiseconds(self.centiseconds->0)) + once(
            self.pause,
            Command::Pause,
        ) + once(self.toggle, Command::Toggle) + once(self.reset, Command::Reset) + once(
            self.and_then is Some,
            Command::ArmFinish(self.and_then->0),
        )
    }

    /// What a run that is already there is to do.
    pub fn commands(&self) -> (r: Vec<Command>)
        ensures
            r@ == self.orders(),
    {
        let mut out: Vec<Command> = Vec::new();
        if let Some(hidden) = self.hidden {
            out.push(Command::SetHidden(hidden));
        }
        assert(out@ =~= once(self.hidden is Some, Command::SetHidden(self.hidden->0)));
        give(
            &mut out,
            match self.edit {
                Some(edit) => Some(Command::SetEdit(edit)),
                None => None,
            },
        );
        give_if(&mut out, self.input, Command::InputTime);
        give(
            &mut out,
            match self.mode {
                Some(mode) => Some(Command::SetMode(mode)),
                None => None,
            },
        );
        give(
            &mut out,
            match self.duration {
                Some(secs) => Some(Command::Preset(secs)),
                None => None,
            },
        );
        give_if(&mut out, self.duration.is_none() && self.autostart, Command::Start);
        give(
            &mut out,
            match self.centiseconds {
                Some(on) => Some(Command::SetCentiseconds(on)),
                None => None,
            },
        );
        give_if(&mut out, self.pause, Command::Pause);
        give_if(&mut out, self.toggle, Command::Toggle);
        give_if(&mut out, self.reset, Command::Reset);
        give(
            &mut out,
            match &self.and_then {
                Some(cmd) => Some(Command::ArmFinish(cmd.clone())),
                None => None,
            },
        );
        out
    }
}

/// A flag sets something and turns nothing over: asked for twice, it is as if asked for once.
pub proof fn law_flags_set(arg: Seq<char>, w: Wish)
    requires
        flagged(arg, w) is Some,
    ensures
        flagged(arg, flagged(arg, w)->0) == flagged(arg, w),
{
}

/// One command, where it is asked for.
pub open spec fn once(asked: bool, cmd: Command) -> Seq<Command> {
    if asked {
        seq![cmd]
    } else {
        Seq::empty()
    }
}

// ---- on the way ----

/// An argument in which no separator stands: a space stands in its place.
pub open spec fn neutral(arg: Seq<char>) -> Seq<char> {
    Seq::new(
        arg.len(),
        |i: int|
            if arg[i] == SEP {
                ' '
            } else {
                arg[i]
            },
    )
}

/// The arguments, with no separator in any of them.
pub open spec fn neutrals(args: Seq<Seq<char>>) -> Seq<Seq<char>> {
    args.map_values(|a: Seq<char>| neutral(a))
}

/// The line on which the arguments travel.
pub open spec fn sent(args: Seq<Seq<char>>) -> Seq<char> {
    strings::joined(neutrals(args), SEP).push('\n')
}

/// A line without its end.
pub open spec fn shorn(s: Seq<char>) -> Seq<char>
    decreases s.len(),
{
    if s.len() > 0 && (s.last() == '\n' || s.last() == '\r') {
        shorn(s.drop_last())
    } else {
        s
    }
}

/// The arguments on a line; there is no empty one among them.
pub open spec fn told(line: Seq<char>) -> Seq<Seq<char>> {
    strings::fields(shorn(line), seq![SEP])
}

/// The line on which the arguments travel.
pub fn encode(args: &[String]) -> (r: String)
    ensures
        r@ == sent(config::texts(args@)),
{
    let mut out = String::new();
    let ghost all = neutrals(config::texts(args@));
    let mut i: usize = 0;
    assert(all.take(0) =~= Seq::<Seq<char>>::empty());
    while i < args.len()
        invariant
            i <= args@.len(),
            all == neutrals(config::texts(args@)),
            out@ == strings::joined(all.take(i as int), SEP),
        decreases args@.len() - i,
    {
        if i > 0 {
            out.push(SEP);
        }
        let ghost front = out@;
        let c = chars_of(args[i].as_str());
        let mut k: usize = 0;
        while k < c.len()
            invariant
                k <= c@.len(),
                out@ == front + neutral(c@).take(k as int),
            decreases c@.len() - k,
        {
            out.push(
                if c[k] == SEP {
                    ' '
                } else {
                    c[k]
                },
            );
            k = k + 1;
            assert(out@ =~= front + neutral(c@).take(k as int));
        }
        proof {
            assert(neutral(c@).take(c@.len() as int) =~= neutral(c@));
            assert(all[i as int] == neutral(c@));
            assert(all.take(i + 1).drop_last() =~= all.take(i as int));
            if i == 0 {
                assert(front =~= Seq::<char>::empty());
                assert(out@ =~= neutral(c@));
            }
        }
        i = i + 1;
    }
    assert(all.take(all.len() as int) =~= all);
    out.push('\n');
    out
}

/// The arguments on a line.
pub fn decode(line: &str) -> (r: Vec<String>)
    ensures
        config::texts(r@) == told(line@),
{
    let c = chars_of(line);
    let mut n: usize = c.len();
    assert(c@.take(n as int) =~= c@);
    while n > 0 && (c[n - 1] == '\n' || c[n - 1] == '\r')
        invariant
            n <= c@.len(),
            shorn(c@) == shorn(c@.take(n as int)),
        decreases n,
    {
        assert(c@.take(n as int).drop_last() =~= c@.take(n - 1));
        n = n - 1;
    }
    let seps: [char; 1] = [SEP];
    assert(seps@ =~= seq![SEP]);
    assert(c@.subrange(0, n as int) =~= c@.take(n as int));
    let parts = split_fields(&c[0..n], &seps);
    let mut out: Vec<String> = Vec::new();
    let mut i: usize = 0;
    while i < parts.len()
        invariant
            i <= parts@.len(),
            config::texts(out@) == strings::rows(parts@).take(i as int),
        decreases parts@.len() - i,
    {
        let ghost before = config::texts(out@);
        out.push(string_of(&parts[i]));
        assert(config::texts(out@) =~= before.push(parts@[i as int]@));
        assert(strings::rows(parts@).take(i + 1) =~= strings::rows(parts@).take(i as int).push(
            parts@[i as int]@,
        ));
        i = i + 1;
    }
    assert(strings::rows(parts@).take(i as int) =~= strings::rows(parts@));
    out
}

/// What is sent is what arrives: as many arguments in the same order, each as it was but for a
/// separator in it. Arguments that are empty, and line ends at the end of the last, are lost.
pub proof fn law_sent_is_told(args: Seq<Seq<char>>)
    requires
        forall|i: int| 0 <= i < args.len() ==> (#[trigger] args[i]).len() > 0,
        args.len() > 0 ==> args.last().last() != '\n' && args.last().last() != '\r',
    ensures
        told(sent(args)) == neutrals(args),
        told(sent(args).drop_last()) == neutrals(args),
{
    let parts = neutrals(args);
    let line = strings::joined(parts, SEP);
    let keep = |p: Seq<char>| p.len() > 0;
    assert(sent(args).drop_last() =~= line);
    if args.len() == 0 {
        assert(line =~= Seq::<char>::empty());
        assert(shorn(sent(args)) == shorn(line));
        assert(strings::pieces(line, seq![SEP]) =~= seq![Seq::<char>::empty()]);
        reveal(Seq::filter);
        let one = seq![Seq::<char>::empty()];
        assert(one.drop_last() =~= Seq::<Seq<char>>::empty());
        assert(one.drop_last().filter(keep) =~= Seq::<Seq<char>>::empty());
        assert(!keep(one.last()));
        assert(one.filter(keep) =~= Seq::<Seq<char>>::empty());
        assert(parts =~= Seq::<Seq<char>>::empty());
    } else {
        assert forall|i: int| 0 <= i < parts.len() implies strings::free_of(
            #[trigger] parts[i],
            seq![SEP],
        ) by {
            assert(parts[i] == neutral(args[i]));
        }
        lemma_joined_last(parts, SEP);
        assert(parts.last() == neutral(args.last()));
        assert(parts.last().last() == neutral(args.last())[args.last().len() - 1]);
        assert(line.last() != '\n' && line.last() != '\r');
        assert(shorn(sent(args)) == shorn(line));
        assert(shorn(line) == line);
        strings::law_join_split(parts, SEP);
        assert forall|i: int| 0 <= i < parts.len() implies (#[trigger] parts[i]).len() > 0 by {
            assert(parts[i] == neutral(args[i]));
        }
        lemma_all_kept(parts);
    }
}

/// Arguments that hold no separator arrive unchanged, spaces and line ends in them too; only an
/// empty argument, and a line end at the very end, would be lost. The line ends in one line end.
pub proof fn law_plain_arguments_arrive(args: Seq<Seq<char>>)
    requires
        forall|i: int|
            0 <= i < args.len() ==> (#[trigger] args[i]).len() > 0 && strings::free_of(
                args[i],
                seq![SEP],
            ),
        args.len() > 0 ==> args.last().last() != '\n' && args.last().last() != '\r',
    ensures
        told(sent(args)) == args,
        told(sent(args).drop_last()) == args,
        sent(args).last() == '\n',
        sent(args).len() > 1 ==> sent(args)[sent(args).len() - 2] != '\n',
{
    assert(seq![SEP][0] == SEP);
    law_sent_is_told(args);
    assert forall|i: int| 0 <= i < args.len() implies neutrals(args)[i] == args[i] by {
        let a = args[i];
        assert(strings::free_of(a, seq![SEP]));
        assert forall|k: int| 0 <= k < a.len() implies neutral(a)[k] == a[k] by {
            assert(!seq![SEP].contains(a[k]));
        }
        assert(neutral(a) =~= a);
    }
    assert(neutrals(args) =~= args);
    if args.len() > 0 {
        lemma_joined_last(args, SEP);
    }
}

proof fn lemma_joined_last(parts: Seq<Seq<char>>, sep: char)
    requires
        parts.len() > 0,
        parts.last().len() > 0,
    ensures
        strings::joined(parts, sep).len() > 0,
        strings::joined(parts, sep).last() == parts.last().last(),
{
}

/// Of parts none of which is empty, all are kept.
proof fn lemma_all_kept(parts: Seq<Seq<char>>)
    requires
        forall|i: int| 0 <= i < parts.len() ==> (#[trigger] parts[i]).len() > 0,
    ensures
        parts.filter(|p: Seq<char>| p.len() > 0) == parts,
    decreases parts.len(),
{
    reveal(Seq::filter);
    if parts.len() > 0 {
        lemma_all_kept(parts.drop_last());
        assert(parts[parts.len() - 1].len() > 0);
        assert(parts.drop_last().push(parts.last()) =~= parts);
    } else {
        assert(parts =~= Seq::<Seq<char>>::empty());
    }
}

/// The line to send, where it is not too long.
pub fn payload(args: &[String]) -> (r: Option<String>)
    ensures
        match r {
            Some(line) => line@ == sent(config::texts(args@)) && vstd::utf8::encode_utf8(line@).len()
                <= MAX_LINE,
            None => vstd::utf8::encode_utf8(sent(config::texts(args@))).len() > MAX_LINE,
        },
{
    let line = encode(args);
    if line.as_str().as_bytes().len() > MAX_LINE {
        None
    } else {
        Some(line)
    }
}

/// Whether there is more to read of a line of which these bytes have arrived.
pub fn unfinished(bytes: &[u8]) -> (r: bool)
    ensures
        r == (bytes@.len() < MAX_LINE && (bytes@.len() == 0 || bytes@.last() != 10)),
{
    bytes.len() < MAX_LINE && (bytes.len() == 0 || bytes[bytes.len() - 1] != 10)
}

/// The bytes before the line end.
pub open spec fn content(bytes: Seq<u8>) -> Seq<u8> {
    if bytes.len() > 0 && bytes.last() == 10 {
        bytes.drop_last()
    } else {
        bytes
    }
}

/// The line that has arrived, without its end: none where it is empty, too long, or no text.
pub open spec fn arrived(bytes: Seq<u8>) -> Option<Seq<char>> {
    if 0 < content(bytes).len() < MAX_LINE && vstd::utf8::valid_utf8(content(bytes)) {
        Some(vstd::utf8::decode_utf8(content(bytes)))
    } else {
        None
    }
}

/// The line that has arrived, without its end.
pub fn read_line(bytes: &[u8]) -> (r: Option<String>)
    ensures
        config::text_of(r) == arrived(bytes@),
{
    let mut n: usize = bytes.len();
    if n > 0 && bytes[n - 1] == 10 {
        n = n - 1;
        assert(bytes@.subrange(0, n as int) =~= bytes@.drop_last());
    } else {
        assert(bytes@.subrange(0, n as int) =~= bytes@);
    }
    if n == 0 || n >= MAX_LINE {
        return None;
    }
    match utf8_text(&bytes[0..n]) {
        Some(s) => {
            proof {
                vstd::utf8::encode_utf8_decode_utf8(s@);
            }
            Some(String::from_str(s))
        },
        None => None,
    }
}

/// The line end is a byte of its own behind the bytes of the line.
proof fn lemma_line_end(s: Seq<char>)
    ensures
        vstd::utf8::encode_utf8(s.push('\n')) == vstd::utf8::encode_utf8(s).push(10),
    decreases s.len(),
{
    let t = s.push('\n');
    if s.len() == 0 {
        assert(t.drop_first() =~= Seq::<char>::empty());
        assert(vstd::utf8::encode_scalar('\n' as u32) =~= seq![10u8]) by {
            assert(10u32 & 0x7F == 10) by (bit_vector);
        }
        assert(t[0] == '\n');
        assert(vstd::utf8::encode_utf8(t.drop_first()) =~= Seq::<u8>::empty());
        assert(vstd::utf8::encode_utf8(t) =~= seq![10u8]);
        assert(vstd::utf8::encode_utf8(s) =~= Seq::<u8>::empty());
    } else {
        assert(t.drop_first() =~= s.drop_first().push('\n'));
        lemma_line_end(s.drop_first());
        assert(vstd::utf8::encode_utf8(t) =~= vstd::utf8::encode_utf8(s).push(10));
    }
}

/// A line that was sent is read as it was, without its end, unless it is empty or too long.
pub proof fn law_line_arrives(args: Seq<Seq<char>>)
    requires
        1 < vstd::utf8::encode_utf8(sent(args)).len() <= MAX_LINE,
    ensures
        arrived(vstd::utf8::encode_utf8(sent(args))) == Some(sent(args).drop_last()),
{
    let line = strings::joined(neutrals(args), SEP);
    lemma_line_end(line);
    assert(sent(args).drop_last() =~= line);
    assert(content(vstd::utf8::encode_utf8(sent(args))) =~= vstd::utf8::encode_utf8(line));
    vstd::utf8::encode_utf8_valid_utf8(line);
    vstd::utf8::encode_utf8_decode_utf8(line);
}

/// What a line that has arrived sets off; nothing, where an argument on it means nothing.
pub fn received(line: &str, now: (u32, u32, u32)) -> (r: Vec<Command>)
    requires
        parse::second_of_day(now) <= 86_400,
    ensures
        match wished(told(line@), 0, nothing(), now) {
            Ok(w) => exists|i: Intent| i@ == w && r@ == #[trigger] i.orders(),
            Err(_) => r@.len() == 0,
        },
{
    let args = decode(line);
    match Intent::parse(&args, now) {
        Ok(intent) => intent.commands(),
        Err(_) => Vec::new(),
    }
}

/// Where runs of the program find each other: in the directory that was asked for, or in that of
/// the session, where it is an absolute path to a directory, or among the files that do not last,
/// under a name that differs from user to user.
pub open spec fn meeting(
    explicit: Option<Seq<char>>,
    runtime: Option<Seq<char>>,
    temp: Seq<char>,
    uid: u32,
) -> Seq<char> {
    match explicit {
        Some(d) => config::joined_path(d, "tinyticker.sock"@),
        None => match config::absolute_path(runtime) {
            Some(d) => config::joined_path(d, "tinyticker.sock"@),
            None => config::joined_path(
                temp,
                "tinyticker-"@ + strings::digits(uid as nat) + ".sock"@,
            ),
        },
    }
}

/// Where runs of the program find each other. `runtime` is given only where it is a directory.
pub fn socket_path(explicit: Option<&str>, runtime: Option<&str>, temp: &str, uid: u32) -> (r: String)
    ensures
        r@ == meeting(config::text_at(explicit), config::text_at(runtime), temp@, uid),
{
    match explicit {
        Some(d) => join_path(d, "tinyticker.sock"),
        None => match absolute(runtime) {
            Some(d) => join_path(d.as_str(), "tinyticker.sock"),
            None => {
                let mut name = String::from_str("tinyticker-");
                strings::push_number(&mut name, uid as u64);
                name.append(".sock");
                join_path(temp, name.as_str())
            },
        },
    }
}

/// The place of a command among the orders: first what shows, then the mode and the length, then what
/// becomes of the timer, and last what follows its end.
pub open spec fn turn_of(c: Command) -> int {
    match c {
        Command::SetHidden(_) => 0,
        Command::SetEdit(_) => 1,
        Command::InputTime => 2,
        Command::SetMode(_) => 3,
        Command::Preset(_) => 4,
        Command::Start => 5,
        Command::SetCentiseconds(_) => 6,
        Command::Pause => 7,
        Command::Toggle => 8,
        Command::Reset => 9,
        Command::ArmFinish(_) => 10,
        _ => 11,
    }
}

/// Whether each command comes at its turn, before the turn `k`.
#[verifier::opaque]
pub open spec fn in_turn(s: Seq<Command>, k: int) -> bool {
    &&& forall|i: int| 0 <= i < s.len() ==> turn_of(#[trigger] s[i]) < k
    &&& forall|i: int, j: int| 0 <= i < j < s.len() ==> turn_of(#[trigger] s[i]) < turn_of(#[trigger] s[j])
}

proof fn lemma_next_turn(s: Seq<Command>, asked: bool, c: Command, k: int)
    requires
        in_turn(s, k),
        asked ==> turn_of(c) == k,
    ensures
        in_turn(s + once(asked, c), k + 1),
{
    reveal(in_turn);
}

/// The orders of a wish come at their turns, and so none of them comes twice.
pub proof fn law_orders_come_in_turn(w: Intent)
    ensures
        in_turn(w.orders(), 11),
{
    let a = once(w.hidden is Some, Command::SetHidden(w.hidden->0));
    assert(in_turn(Seq::empty(), 0)) by {
        reveal(in_turn);
    }
    lemma_next_turn(Seq::empty(), w.hidden is Some, Command::SetHidden(w.hidden->0), 0);
    assert(Seq::<Command>::empty() + a =~= a);
    let b = a + once(w.edit is Some, Command::SetEdit(w.edit->0));
    lemma_next_turn(a, w.edit is Some, Command::SetEdit(w.edit->0), 1);
    let c = b + once(w.input, Command::InputTime);
    lemma_next_turn(b, w.input, Command::InputTime, 2);
    let d = c + once(w.mode is Some, Command::SetMode(w.mode->0));
    lemma_next_turn(c, w.mode is Some, Command::SetMode(w.mode->0), 3);
    let e = d + once(w.duration is Some, Command::Preset(w.duration->0));
    lemma_next_turn(d, w.duration is Some, Command::Preset(w.duration->0), 4);
    let starts = w.duration is None && w.autostart;
    let f = e + once(starts, Command::Start);
    lemma_next_turn(e, starts, Command::Start, 5);
    let g = f + once(w.centiseconds is Some, Command::SetCentiseconds(w.centiseconds->0));
    lemma_next_turn(f, w.centiseconds is Some, Command::SetCentiseconds(w.centiseconds->0), 6);
    let h = g + once(w.pause, Command::Pause);
    lemma_next_turn(g, w.pause, Command::Pause, 7);
    let k = h + once(w.toggle, Command::Toggle);
    lemma_next_turn(h, w.toggle, Command::Toggle, 8);
    let l = k + once(w.reset, Command::Reset);
    lemma_next_turn(k, w.reset, Command::Reset, 9);
    lemma_next_turn(l, w.and_then is Some, Command::ArmFinish(w.and_then->0), 10);
}

} // verus!
