//! How busy the machine is, from the text that the system gives.
use crate::strings;
use crate::strings::{
    chars_are, chars_of, find_line, index_of, lower_all, parse_upto, split_lines, split_tokens, trim,
};
use vstd::prelude::*;

verus! {

/// What a battery says.
#[derive(Clone, Copy, Debug, PartialEq, Eq, Structural)]
pub struct Battery {
    pub percent: u8,
    pub charging: bool,
}

/// What was measured, the first two in percent.
#[derive(Clone, Copy, Debug, PartialEq, Eq, Structural)]
pub struct Sources {
    pub cpu: u8,
    pub mem: u8,
    /// `None` where there is no battery.
    pub battery: Option<Battery>,
    /// Bytes that come in and go out in a second.
    pub net_down: u64,
    pub net_up: u64,
    /// Seconds since the start of the machine, 0 where they are not known.
    pub uptime_secs: u64,
}

/// The number that the token `i` writes.
pub open spec fn number(tokens: Seq<Seq<char>>, i: int) -> Option<nat> {
    if 0 <= i < tokens.len() {
        strings::unsigned_upto(tokens[i], u64::MAX as nat)
    } else {
        None
    }
}

/// Whether each of the first `n` tokens writes a number.
pub open spec fn numbers_upto(tokens: Seq<Seq<char>>, n: int) -> bool {
    forall|i: int| 0 <= i < n ==> (#[trigger] number(tokens, i)) is Some
}

/// The sum of the first `n` numbers, of which there may be fewer.
pub open spec fn sum_of(tokens: Seq<Seq<char>>, n: int) -> nat
    decreases n,
{
    if n <= 0 {
        0
    } else {
        sum_of(tokens, n - 1) + (match number(tokens, n - 1) {
            Some(v) => v,
            None => 0,
        })
    }
}

/// The time that the processors were busy, and all their time: the first line about all of them
/// gives the times for eight uses, of which the fourth and the fifth are idle. Fewer than four, and
/// more time than is counted, cannot be read.
pub open spec fn cpu_times(text: Seq<char>) -> Option<(u64, u64)> {
    match strings::line_after(strings::lines(text), "cpu "@, 0) {
        Some(rest) => {
            let t = strings::tokens(rest);
            let n = if t.len() < 8 {
                t.len() as int
            } else {
                8
            };
            let total = sum_of(t, n);
            let idle = (match number(t, 3) {
                Some(v) => v,
                None => 0,
            }) + (match number(t, 4) {
                Some(v) => v,
                None => 0,
            });
            if t.len() < 4 || !numbers_upto(t, t.len() as int) || total > u64::MAX {
                None
            } else {
                Some(((total - idle) as u64, total as u64))
            }
        },
        None => None,
    }
}

/// The numbers of tokens, where each writes one.
fn numbers(tokens: &Vec<Vec<char>>) -> (r: Option<Vec<u64>>)
    ensures
        match r {
            Some(v) => {
                &&& numbers_upto(strings::rows(tokens@), tokens@.len() as int)
                &&& v@.len() == tokens@.len()
                &&& forall|i: int|
                    0 <= i < v@.len() ==> number(strings::rows(tokens@), i) == Some(#[trigger] v@[i] as nat)
            },
            None => !numbers_upto(strings::rows(tokens@), tokens@.len() as int),
        },
{
    let ghost t = strings::rows(tokens@);
    let mut out: Vec<u64> = Vec::new();
    let mut i: usize = 0;
    while i < tokens.len()
        invariant
            i <= tokens@.len(),
            t == strings::rows(tokens@),
            out@.len() == i,
            forall|j: int| 0 <= j < i ==> number(t, j) == Some(#[trigger] out@[j] as nat),
        decreases tokens@.len() - i,
    {
        assert(t[i as int] == tokens@[i as int]@);
        match parse_upto(&tokens[i], u64::MAX) {
            Some(n) => {
                out.push(n);
            },
            None => {
                assert(number(t, i as int) is None);
                return None;
            },
        }
        i = i + 1;
    }
    assert forall|i: int| 0 <= i < tokens@.len() implies (#[trigger] number(t, i)) is Some by {
        assert(number(t, i) == Some(out@[i] as nat));
    }
    Some(out)
}

proof fn lemma_sum_has(t: Seq<Seq<char>>, n: int)
    requires
        4 <= n <= 8,
        n <= t.len(),
        t.len() <= 4 || n > 4,
    ensures
        sum_of(t, n) >= (match number(t, 3) {
            Some(v) => v,
            None => 0,
        }) + (match number(t, 4) {
            Some(v) => v,
            None => 0,
        }),
    decreases n,
{
    reveal_with_fuel(sum_of, 9);
}

/// The time that the processors were busy, and all their time.
pub fn parse_cpu_line(text: &str) -> (r: Option<(u64, u64)>)
    ensures
        r == cpu_times(text@),
{
    let all = split_lines(&chars_of(text));
    let rest = match find_line(&all, "cpu ") {
        Some(t) => t,
        None => {
            return None;
        },
    };
    let tokens = split_tokens(rest);
    let ghost t = strings::rows(tokens@);
    assert(t.len() == tokens@.len());
    let v = match numbers(&tokens) {
        Some(v) => v,
        None => {
            return None;
        },
    };
    if v.len() < 4 {
        return None;
    }
    let n: usize = if v.len() < 8 {
        v.len()
    } else {
        8
    };
    let mut total: u128 = 0;
    let mut i: usize = 0;
    while i < n
        invariant
            i <= n,
            n <= 8,
            n <= v@.len(),
            v@.len() == t.len(),
            forall|j: int| 0 <= j < v@.len() ==> number(t, j) == Some(#[trigger] v@[j] as nat),
            total == sum_of(t, i as int),
            total <= i * u64::MAX,
        decreases n - i,
    {
        assert(number(t, i as int) == Some(v@[i as int] as nat));
        total = total + v[i] as u128;
        i = i + 1;
    }
    if total > u64::MAX as u128 {
        return None;
    }
    assert(number(t, 3) == Some(v@[3] as nat));
    assert(t.len() > 4 ==> number(t, 4) == Some(v@[4] as nat));
    proof {
        lemma_sum_has(t, n as int);
    }
    let idle: u128 = v[3] as u128 + (if v.len() > 4 {
        v[4] as u128
    } else {
        0
    });
    Some(((total - idle) as u64, total as u64))
}

/// How busy the processors were between two readings, in percent; 0 where no time passed between
/// them.
pub open spec fn busy_percent(now: (u64, u64), busy: u64, total: u64) -> int {
    let all = if now.1 > total {
        now.1 - total
    } else {
        0
    };
    let used = if now.0 > busy {
        now.0 - busy
    } else {
        0
    };
    if all == 0 {
        0
    } else if used > all {
        100
    } else {
        used * 100 / all
    }
}

/// How busy the processors were between two readings, in percent.
pub fn delta_percent(cur: (u64, u64), prev_busy: u64, prev_total: u64) -> (r: u8)
    ensures
        r == busy_percent(cur, prev_busy, prev_total),
        r <= 100,
{
    let all: u128 = if cur.1 > prev_total {
        (cur.1 - prev_total) as u128
    } else {
        0
    };
    if all == 0 {
        return 0;
    }
    let used: u128 = if cur.0 > prev_busy {
        (cur.0 - prev_busy) as u128
    } else {
        0
    };
    if used > all {
        return 100;
    }
    assert(used * 100 / (all as int) <= 100) by (nonlinear_arith)
        requires
            0 <= used <= all,
            all > 0,
    ;
    (used * 100 / all) as u8
}

/// How many bytes there were in a second, where the counter went up in `ms` milliseconds; at least
/// one is taken to have passed.
pub open spec fn rate(cur: u64, prev: u64, ms: u64) -> int {
    let grown = if cur > prev {
        cur - prev
    } else {
        0
    };
    let passed = if ms == 0 {
        1
    } else {
        ms as int
    };
    let n = grown * 1000 / passed;
    if n > u64::MAX {
        u64::MAX as int
    } else {
        n
    }
}

/// How many bytes there were in a second.
pub fn bytes_per_sec(cur: u64, prev: u64, ms: u64) -> (r: u64)
    ensures
        r == rate(cur, prev, ms),
{
    let grown: u128 = if cur > prev {
        (cur - prev) as u128
    } else {
        0
    };
    let passed: u128 = if ms == 0 {
        1
    } else {
        ms as u128
    };
    let n: u128 = grown * 1000 / passed;
    if n > u64::MAX as u128 {
        u64::MAX
    } else {
        n as u64
    }
}

/// What a line says of an interface: the bytes that came in and that went out.
pub open spec fn interface(line: Seq<char>) -> Option<(nat, nat)> {
    let at = strings::index_from(line, ':', 0);
    if at >= line.len() {
        None
    } else {
        let name = strings::trimmed(line.subrange(0, at));
        let t = strings::tokens(line.subrange(at + 1, line.len() as int));
        if name.len() == 0 || name == "lo"@ || t.len() < 9 {
            None
        } else {
            match (number(t, 0), number(t, 8)) {
                (Some(r), Some(s)) => Some((r, s)),
                _ => None,
            }
        }
    }
}

/// The sums over the interfaces in the first `n` lines, and how many there are.
pub open spec fn interfaces(lines: Seq<Seq<char>>, n: int) -> (nat, nat, nat)
    decreases n,
{
    if n <= 0 {
        (0, 0, 0)
    } else {
        let before = interfaces(lines, n - 1);
        match interface(lines[n - 1]) {
            Some((r, s)) => (before.0 + r, before.1 + s, before.2 + 1),
            None => before,
        }
    }
}

/// The bytes that came in and went out in all, but for what the machine sent to itself; `None`
/// where no interface is listed, or where it is more than is counted.
pub open spec fn traffic(text: Seq<char>) -> Option<(u64, u64)> {
    let l = strings::lines(text);
    let (r, s, n) = interfaces(l, l.len() as int);
    if n == 0 || r > u64::MAX || s > u64::MAX {
        None
    } else {
        Some((r as u64, s as u64))
    }
}

/// What a line says of an interface.
fn parse_interface(line: &[char]) -> (r: Option<(u64, u64)>)
    ensures
        match r {
            Some((a, b)) => interface(line@) == Some((a as nat, b as nat)),
            None => interface(line@) is None,
        },
{
    let at: usize = index_of(line, ':');
    if at >= line.len() {
        return None;
    }
    let name = trim(&line[0..at]);
    let tokens = split_tokens(&line[at + 1..line.len()]);
    let ghost t = strings::rows(tokens@);
    assert(t.len() == tokens@.len());
    if name.len() == 0 || chars_are(name, "lo") || tokens.len() < 9 {
        return None;
    }
    assert(t[0] == tokens@[0]@ && t[8] == tokens@[8]@);
    match (parse_upto(&tokens[0], u64::MAX), parse_upto(&tokens[8], u64::MAX)) {
        (Some(r), Some(s)) => Some((r, s)),
        _ => None,
    }
}

proof fn lemma_interfaces_grow(lines: Seq<Seq<char>>, a: int, b: int)
    requires
        0 <= a <= b,
    ensures
        interfaces(lines, a).0 <= interfaces(lines, b).0,
        interfaces(lines, a).1 <= interfaces(lines, b).1,
        interfaces(lines, a).2 <= interfaces(lines, b).2,
    decreases b - a,
{
    if a < b {
        lemma_interfaces_grow(lines, a, b - 1);
    }
}

/// The bytes that came in and went out in all.
pub fn parse_netdev(text: &str) -> (r: Option<(u64, u64)>)
    ensures
        r == traffic(text@),
{
    let all = split_lines(&chars_of(text));
    let ghost l = strings::rows(all@);
    let mut rx: u64 = 0;
    let mut tx: u64 = 0;
    let mut seen = false;
    let mut i: usize = 0;
    while i < all.len()
        invariant
            i <= all@.len(),
            l == strings::rows(all@),
            l == strings::lines(text@),
            rx == interfaces(l, i as int).0,
            tx == interfaces(l, i as int).1,
            seen == (interfaces(l, i as int).2 > 0),
        decreases all@.len() - i,
    {
        assert(l[i as int] == all@[i as int]@);
        if let Some((r, t)) = parse_interface(&all[i]) {
            proof {
                lemma_interfaces_grow(l, i + 1, l.len() as int);
            }
            if r > u64::MAX - rx || t > u64::MAX - tx {
                return None;
            }
            rx = rx + r;
            tx = tx + t;
            seen = true;
        }
        i = i + 1;
    }
    if seen {
        Some((rx, tx))
    } else {
        None
    }
}

/// `s` without the `:` that it begins with.
pub open spec fn without_colons(s: Seq<char>) -> Seq<char>
    decreases s.len(),
{
    if s.len() > 0 && s[0] == ':' {
        without_colons(s.subrange(1, s.len() as int))
    } else {
        s
    }
}

/// The number behind a key.
pub open spec fn memory(text: Seq<char>, key: Seq<char>) -> Option<nat> {
    match strings::line_after(strings::lines(text), key, 0) {
        Some(rest) => number(strings::tokens(without_colons(rest)), 0),
        None => None,
    }
}

/// How full the memory is, in percent.
pub open spec fn memory_percent(text: Seq<char>) -> Option<u8> {
    match (memory(text, "MemTotal"@), memory(text, "MemAvailable"@)) {
        (Some(total), Some(free)) => if total == 0 || free > total {
            None
        } else {
            Some(((total - free) * 100 / total as int) as u8)
        },
        _ => None,
    }
}

/// The number behind a key.
fn memory_value(all: &Vec<Vec<char>>, key: &str) -> (r: Option<u64>)
    ensures
        forall|text: Seq<char>|
            strings::lines(text) == strings::rows(all@) ==> #[trigger] memory(text, key@) == (match r {
                Some(n) => Some(n as nat),
                None => None::<nat>,
            }),
{
    let rest = match find_line(all, key) {
        Some(t) => t,
        None => {
            return None;
        },
    };
    let mut i: usize = 0;
    assert(rest@.subrange(0, rest@.len() as int) =~= rest@);
    while i < rest.len() && rest[i] == ':'
        invariant
            i <= rest@.len(),
            without_colons(rest@) == without_colons(rest@.subrange(i as int, rest@.len() as int)),
        decreases rest@.len() - i,
    {
        let ghost s = rest@.subrange(i as int, rest@.len() as int);
        assert(s.subrange(1, s.len() as int) =~= rest@.subrange(i + 1, rest@.len() as int));
        i = i + 1;
    }
    let tokens = split_tokens(&rest[i..rest.len()]);
    let ghost t = strings::rows(tokens@);
    assert(t.len() == tokens@.len());
    if tokens.len() == 0 {
        return None;
    }
    assert(t[0] == tokens@[0]@);
    parse_upto(&tokens[0], u64::MAX)
}

/// How full the memory is, in percent.
pub fn parse_meminfo(text: &str) -> (r: Option<u8>)
    ensures
        r == memory_percent(text@),
        r matches Some(n) ==> n <= 100,
{
    let all = split_lines(&chars_of(text));
    match (memory_value(&all, "MemTotal"), memory_value(&all, "MemAvailable")) {
        (Some(total), Some(free)) => {
            if total == 0 || free > total {
                return None;
            }
            let used: u128 = (total - free) as u128;
            assert(used * 100 / (total as int) <= 100) by (nonlinear_arith)
                requires
                    0 <= used <= total,
                    total > 0,
            ;
            Some((used * 100 / total as u128) as u8)
        },
        _ => None,
    }
}

/// The seconds since the start: the first number, without what stands behind its point.
pub open spec fn uptime(text: Seq<char>) -> Option<u64> {
    let t = strings::tokens(text);
    if t.len() == 0 {
        None
    } else {
        match strings::unsigned_upto(t[0].subrange(0, strings::index_from(t[0], '.', 0)), u64::MAX as nat) {
            Some(n) => Some(n as u64),
            None => None,
        }
    }
}

/// The seconds since the start.
pub fn parse_uptime(text: &str) -> (r: Option<u64>)
    ensures
        r == uptime(text@),
{
    let tokens = split_tokens(&chars_of(text));
    let ghost t = strings::rows(tokens@);
    assert(t.len() == tokens@.len());
    if tokens.len() == 0 {
        return None;
    }
    assert(t[0] == tokens@[0]@);
    let at: usize = index_of(&tokens[0], '.');
    parse_upto(&tokens[0][0..at], u64::MAX)
}

/// How full a battery is, in percent.
pub open spec fn capacity(text: Seq<char>) -> Option<u8> {
    match strings::unsigned_upto(strings::trimmed(text), 100) {
        Some(n) => Some(n as u8),
        None => None,
    }
}

/// How full a battery is, in percent.
pub fn parse_capacity(text: &str) -> (r: Option<u8>)
    ensures
        r == capacity(text@),
{
    match parse_upto(trim(&chars_of(text)), 100) {
        Some(n) => Some(n as u8),
        None => None,
    }
}

/// What the system says of a source of power.
pub struct Supply {
    pub kind: String,
    pub capacity: Option<String>,
    pub status: String,
}

/// Whether a text is a word, in upper or lower case, with white space around it.
pub open spec fn says(text: Seq<char>, word: Seq<char>) -> bool {
    strings::lowered(strings::trimmed(text)) == word
}

/// How full a source of power is, if it is a battery that says so.
pub open spec fn charge(s: Supply) -> Option<u8> {
    if !says(s.kind@, "battery"@) {
        None
    } else {
        match s.capacity {
            Some(c) => capacity(c@),
            None => None,
        }
    }
}

/// Of the first `n` sources of power, the sum of how full the batteries are, how many there are, and
/// whether one is being charged.
pub open spec fn charges(all: Seq<Supply>, n: int) -> (nat, nat, bool)
    decreases n,
{
    if n <= 0 {
        (0, 0, false)
    } else {
        let before = charges(all, n - 1);
        match charge(all[n - 1]) {
            Some(c) => (
                before.0 + c as nat,
                before.1 + 1,
                before.2 || says(all[n - 1].status@, "charging"@),
            ),
            None => before,
        }
    }
}

/// Whether a text is a word.
fn is_word(text: &str, word: &str) -> (r: bool)
    ensures
        r == says(text@, word@),
{
    chars_are(&lower_all(trim(&chars_of(text))), word)
}

/// The batteries as one: as full as they are on average, and being charged where one of them is.
pub fn battery_of(all: &[Supply]) -> (r: Option<Battery>)
    ensures
        r == ({
            let (sum, n, charging) = charges(all@, all@.len() as int);
            if n == 0 {
                None
            } else {
                Some(Battery { percent: (sum / n) as u8, charging })
            }
        }),
{
    let mut sum: u128 = 0;
    let mut n: u128 = 0;
    let mut charging = false;
    let mut i: usize = 0;
    while i < all.len()
        invariant
            i <= all@.len(),
            n <= i,
            sum <= 100 * n,
            (sum as nat, n as nat, charging) == charges(all@, i as int),
        decreases all@.len() - i,
    {
        let s = &all[i];
        if is_word(s.kind.as_str(), "battery") {
            if let Some(text) = &s.capacity {
                if let Some(c) = parse_capacity(text.as_str()) {
                    sum = sum + c as u128;
                    n = n + 1;
                    charging = charging || is_word(s.status.as_str(), "charging");
                }
            }
        }
        i = i + 1;
    }
    if n == 0 {
        return None;
    }
    assert(sum / n <= 100) by (nonlinear_arith)
        requires
            sum <= 100 * n,
            n > 0,
    ;
    Some(Battery { percent: (sum / n) as u8, charging })
}

// ---- measuring again and again ----

/// How long the reading of a battery is good for, in milliseconds.
pub const BATTERY_EVERY_MS: u64 = 30_000;

/// What was read at a moment, as far as it could be read. Moments are in milliseconds.
#[derive(Clone, Copy, Debug)]
pub struct Readings {
    pub now: u64,
    pub cpu: Option<(u64, u64)>,
    pub net: Option<(u64, u64)>,
    /// What the battery says; only looked at where it is time to.
    pub battery: Option<Battery>,
    pub mem: Option<u8>,
    pub uptime: Option<u64>,
}

/// Measures again and again: how busy the processors and the network are shows only between two
/// readings.
#[derive(Clone, Copy, Debug, PartialEq, Eq)]
pub struct Sampler {
    pub prev: Option<(u64, u64)>,
    pub cpu: u8,
    pub prev_net: Option<(u64, u64)>,
    pub net_at: u64,
    pub net_down: u64,
    pub net_up: u64,
    pub battery_at: u64,
    pub battery: Option<Battery>,
}

/// The time from one moment to another that is not before it.
pub open spec fn elapsed(from: u64, to: u64) -> int {
    if to > from {
        to - from
    } else {
        0
    }
}

impl Sampler {
    /// The first readings, to measure from.
    pub fn new(r: &Readings) -> (s: Self)
        ensures
            s == (Sampler {
                prev: r.cpu,
                cpu: 0,
                prev_net: r.net,
                net_at: r.now,
                net_down: 0,
                net_up: 0,
                battery_at: r.now,
                battery: r.battery,
            }),
    {
        Sampler {
            prev: r.cpu,
            cpu: 0,
            prev_net: r.net,
            net_at: r.now,
            net_down: 0,
            net_up: 0,
            battery_at: r.now,
            battery: r.battery,
        }
    }

    /// Whether it is time to look at the battery again.
    pub open spec fn is_battery_due(self, now: u64) -> bool {
        elapsed(self.battery_at, now) >= BATTERY_EVERY_MS
    }

    /// Whether it is time to look at the battery again.
    pub fn battery_due(&self, now: u64) -> (r: bool)
        ensures
            r == self.is_battery_due(now),
    {
        now > self.battery_at && now - self.battery_at >= BATTERY_EVERY_MS
    }

    /// What is known after new readings; what could not be read stays as it was.
    pub open spec fn after(self, r: Readings) -> Sampler {
        Sampler {
            prev: if r.cpu is Some {
                r.cpu
            } else {
                self.prev
            },
            cpu: match (r.cpu, self.prev) {
                (Some(c), Some(p)) => busy_percent(c, p.0, p.1) as u8,
                (Some(c), None) => 0,
                (None, _) => self.cpu,
            },
            prev_net: if r.net is Some {
                r.net
            } else {
                self.prev_net
            },
            net_at: if r.net is Some {
                r.now
            } else {
                self.net_at
            },
            net_down: match (r.net, self.prev_net) {
                (Some(c), Some(p)) => rate(c.0, p.0, elapsed(self.net_at, r.now) as u64) as u64,
                _ => self.net_down,
            },
            net_up: match (r.net, self.prev_net) {
                (Some(c), Some(p)) => rate(c.1, p.1, elapsed(self.net_at, r.now) as u64) as u64,
                _ => self.net_up,
            },
            battery_at: if self.is_battery_due(r.now) {
                r.now
            } else {
                self.battery_at
            },
            battery: if self.is_battery_due(r.now) {
                r.battery
            } else {
                self.battery
            },
        }
    }

    /// Takes new readings and gives what they show.
    pub fn sample(&mut self, r: &Readings) -> (s: Sources)
        ensures
            *final(self) == old(self).after(*r),
            s == (Sources {
                cpu: final(self).cpu,
                mem: match r.mem {
                    Some(m) => m,
                    None => 0,
                },
                battery: final(self).battery,
                net_down: final(self).net_down,
                net_up: final(self).net_up,
                uptime_secs: match r.uptime {
                    Some(n) => n,
                    None => 0,
                },
            }),
    {
        if let Some(cur) = r.cpu {
            self.cpu = match self.prev {
                Some((busy, total)) => delta_percent(cur, busy, total),
                None => 0,
            };
            self.prev = Some(cur);
        }
        if let Some(cur) = r.net {
            let ms: u64 = if r.now > self.net_at {
                r.now - self.net_at
            } else {
                0
            };
            if let Some((rx, tx)) = self.prev_net {
                self.net_down = bytes_per_sec(cur.0, rx, ms);
                self.net_up = bytes_per_sec(cur.1, tx, ms);
            }
            self.prev_net = Some(cur);
            self.net_at = r.now;
        }
        if self.battery_due(r.now) {
            self.battery_at = r.now;
            self.battery = r.battery;
        }
        Sources {
            cpu: self.cpu,
            mem: match r.mem {
                Some(m) => m,
                None => 0,
            },
            battery: self.battery,
            net_down: self.net_down,
            net_up: self.net_up,
            uptime_secs: match r.uptime {
                Some(n) => n,
                None => 0,
            },
        }
    }
}

/// A share in percent is rounded down.
proof fn lemma_percent(part: int, all: int)
    requires
        0 <= part,
        0 < all,
    ensures
        (part * 100 / all) * all <= 100 * part < (part * 100 / all + 1) * all,
        part <= all ==> 0 <= part * 100 / all <= 100,
{
    let q = part * 100 / all;
    vstd::arithmetic::div_mod::lemma_fundamental_div_mod(part * 100, all);
    assert(q * all == all * q && (q + 1) * all == all * q + all) by (nonlinear_arith);
    if part <= all {
        assert(0 <= q <= 100) by (nonlinear_arith)
            requires
                q == part * 100 / all,
                0 <= part <= all,
                0 < all,
        ;
    }
}

/// Between two readings the processors were busy for the share of the time that was counted as busy,
/// in percent, rounded down. Where no time was counted it is none.
pub proof fn law_busy_share(busy: u64, total: u64, now: (u64, u64))
    ensures
        now.1 <= total ==> busy_percent(now, busy, total) == 0,
        now.0 <= busy ==> busy_percent(now, busy, total) == 0,
        now.1 > total && now.0 >= busy && now.0 - busy <= now.1 - total ==> {
            let p = busy_percent(now, busy, total);
            &&& 0 <= p <= 100
            &&& p * (now.1 - total) <= 100 * (now.0 - busy) < (p + 1) * (now.1 - total)
        },
        now.1 > total && now.0 - busy > now.1 - total ==> busy_percent(now, busy, total) == 100,
{
    if now.1 > total {
        if now.0 > busy {
            lemma_percent(now.0 - busy, now.1 - total);
        } else {
            lemma_percent(0, now.1 - total);
            assert(0int / (now.1 - total) == 0) by (nonlinear_arith)
                requires
                    now.1 > total,
            ;
        }
    }
}

/// A rate is what the counter grew by, for each second that passed, rounded down, and the greatest
/// number where it is more.
pub proof fn law_rate_is_per_second(cur: u64, prev: u64, ms: u64)
    requires
        0 < ms,
    ensures
        cur <= prev ==> rate(cur, prev, ms) == 0,
        cur >= prev ==> {
            let r = rate(cur, prev, ms);
            &&& r * ms <= 1000 * (cur - prev)
            &&& 1000 * (cur - prev) < (r + 1) * ms || r == u64::MAX
        },
        rate(cur, prev, 0) == rate(cur, prev, 1),
{
    let grown = if cur > prev {
        cur - prev
    } else {
        0
    };
    let m = ms as int;
    let n = grown * 1000 / m;
    vstd::arithmetic::div_mod::lemma_fundamental_div_mod(grown * 1000, m);
    assert(n * m == m * n && (n + 1) * m == m * n + m) by (nonlinear_arith);
    if cur <= prev {
        assert(0int / m == 0) by (nonlinear_arith)
            requires
                m > 0,
        ;
    } else if n > u64::MAX {
        assert(u64::MAX * m <= n * m) by (nonlinear_arith)
            requires
                n > u64::MAX,
                m > 0,
        ;
    }
}

/// The memory is as full as what is not available of it, in percent, rounded down.
pub proof fn law_memory_share(text: Seq<char>)
    ensures
        memory_percent(text) is Some <==> (memory(text, "MemTotal"@) matches Some(total) && (memory(
            text,
            "MemAvailable"@,
        ) matches Some(free) && 0 < total && free <= total)),
        memory_percent(text) matches Some(p) ==> {
            let total = memory(text, "MemTotal"@)->0;
            let free = memory(text, "MemAvailable"@)->0;
            p <= 100 && p * total <= 100 * (total - free) < (p + 1) * total
        },
{
    match (memory(text, "MemTotal"@), memory(text, "MemAvailable"@)) {
        (Some(total), Some(free)) => {
            if total > 0 && free <= total {
                lemma_percent(total - free, total as int);
            }
        },
        _ => {},
    }
}

/// All the time of the processors is that of the first eight uses; the fourth and the fifth of them
/// are idle, and the others busy.
pub proof fn law_times_of_uses(text: Seq<char>, rest: Seq<char>)
    requires
        strings::line_after(strings::lines(text), "cpu "@, 0) == Some(rest),
        strings::tokens(rest).len() >= 8,
        numbers_upto(strings::tokens(rest), strings::tokens(rest).len() as int),
    ensures
        ({
            let v = |i: int| number(strings::tokens(rest), i)->0;
            let busy = v(0) + v(1) + v(2) + v(5) + v(6) + v(7);
            let all = busy + v(3) + v(4);
            cpu_times(text) == (if all <= u64::MAX {
                Some((busy as u64, all as u64))
            } else {
                None
            })
        }),
{
    let t = strings::tokens(rest);
    assert(number(t, 0) is Some && number(t, 1) is Some && number(t, 2) is Some && number(t, 3) is Some
        && number(t, 4) is Some && number(t, 5) is Some && number(t, 6) is Some && number(t, 7) is Some);
    reveal_with_fuel(sum_of, 9);
}

/// What is shown after two readings is what happened between them: the processors' share of the time,
/// and the bytes for each second. What could not be read stays.
pub proof fn law_readings_are_compared(s: Sampler, first: Readings, second: Readings)
    ensures
        ({
            let t = s.after(first).after(second);
            &&& second.cpu is None ==> t.cpu == s.after(first).cpu
            &&& second.net is None ==> t.net_down == s.after(first).net_down && t.net_up == s.after(
                first,
            ).net_up
            &&& (first.cpu matches Some(a) && (second.cpu matches Some(b) && a.1 < b.1 && a.0 <= b.0
                && b.0 - a.0 <= b.1 - a.1)) ==> {
                let (a, b) = (first.cpu->0, second.cpu->0);
                t.cpu <= 100 && t.cpu * (b.1 - a.1) <= 100 * (b.0 - a.0) < (t.cpu + 1) * (b.1 - a.1)
            }
            &&& (first.net matches Some(a) && (second.net matches Some(b) && first.now < second.now
                && a.0 <= b.0 && a.1 <= b.1)) ==> {
                let (a, b) = (first.net->0, second.net->0);
                let ms = second.now - first.now;
                &&& t.net_down * ms <= 1000 * (b.0 - a.0)
                &&& 1000 * (b.0 - a.0) < (t.net_down + 1) * ms || t.net_down == u64::MAX
                &&& t.net_up * ms <= 1000 * (b.1 - a.1)
                &&& 1000 * (b.1 - a.1) < (t.net_up + 1) * ms || t.net_up == u64::MAX
            }
        }),
{
    match (first.cpu, second.cpu) {
        (Some(a), Some(b)) => {
            law_busy_share(a.0, a.1, b);
        },
        _ => {},
    }
    match (first.net, second.net) {
        (Some(a), Some(b)) => {
            if first.now < second.now {
                let ms = (second.now - first.now) as u64;
                law_rate_is_per_second(b.0, a.0, ms);
                law_rate_is_per_second(b.1, a.1, ms);
            }
        },
        _ => {},
    }
}

/// The battery is looked at again once its time has passed, and is shown as it was until then.
pub proof fn law_battery_is_looked_at_again(s: Sampler, r: Readings)
    ensures
        r.now >= s.battery_at + BATTERY_EVERY_MS ==> s.after(r).battery == r.battery && s.after(r).battery_at
            == r.now,
        r.now < s.battery_at + BATTERY_EVERY_MS ==> s.after(r).battery == s.battery && s.after(r).battery_at
            == s.battery_at,
{
}

/// A line about an interface has its name in front of a colon, and behind it in the first column the
/// bytes that came in and in the ninth those that went out; what the machine sends to itself does not
/// count.
pub proof fn law_interface_columns(name: Seq<char>, rest: Seq<char>)
    requires
        forall|i: int| 0 <= i < name.len() ==> #[trigger] name[i] != ':',
    ensures
        ({
            let t = strings::tokens(rest);
            let line = name.push(':') + rest;
            &&& strings::trimmed(name) == "lo"@ ==> interface(line) is None
            &&& strings::trimmed(name).len() > 0 && strings::trimmed(name) != "lo"@ && t.len() >= 9 ==> (
            number(t, 0) matches Some(r) ==> (number(t, 8) matches Some(s) ==> interface(line) == Some((r, s))))
        }),
{
    let line = name.push(':') + rest;
    lemma_first_colon(line, 0, name.len() as int);
    assert(line.subrange(0, name.len() as int) =~= name);
    assert(line.subrange(name.len() as int + 1, line.len() as int) =~= rest);
}

proof fn lemma_first_colon(line: Seq<char>, i: int, at: int)
    requires
        0 <= i <= at < line.len(),
        line[at] == ':',
        forall|k: int| 0 <= k < at ==> #[trigger] line[k] != ':',
    ensures
        strings::index_from(line, ':', i) == at,
    decreases at - i,
{
    if i < at {
        lemma_first_colon(line, i + 1, at);
    }
}

/// The bytes of the interfaces are added up, in whatever order their lines stand.
pub proof fn law_interfaces_add_up(a: Seq<Seq<char>>, b: Seq<Seq<char>>, n: int)
    requires
        0 <= n <= b.len(),
    ensures
        ({
            let (x, y) = (interfaces(a, a.len() as int), interfaces(b, n));
            interfaces(a + b, a.len() + n) == (x.0 + y.0, x.1 + y.1, x.2 + y.2)
        }),
    decreases n,
{
    if n == 0 {
        lemma_interfaces_front(a, b, a.len() as int);
    } else {
        law_interfaces_add_up(a, b, n - 1);
        assert((a + b)[a.len() + n - 1] == b[n - 1]);
    }
}

proof fn lemma_interfaces_front(a: Seq<Seq<char>>, b: Seq<Seq<char>>, n: int)
    requires
        0 <= n <= a.len(),
    ensures
        interfaces(a + b, n) == interfaces(a, n),
    decreases n,
{
    if n > 0 {
        lemma_interfaces_front(a, b, n - 1);
        assert((a + b)[n - 1] == a[n - 1]);
    }
}

/// The batteries together are charged as much as all of them on average, so no less than the emptiest
/// and no more than the fullest; and they are being charged where one of them is.
pub proof fn law_batteries_are_averaged(all: Seq<Supply>, n: int, lo: int, hi: int)
    requires
        0 <= n <= all.len(),
        forall|k: int| 0 <= k < n ==> (charge(#[trigger] all[k]) matches Some(c) ==> lo <= c <= hi),
    ensures
        ({
            let (sum, count, charging) = charges(all, n);
            &&& lo * count <= sum <= hi * count
            &&& charging <==> exists|k: int|
                0 <= k < n && charge(#[trigger] all[k]) is Some && says(all[k].status@, "charging"@)
            &&& count == 0 <==> forall|k: int| 0 <= k < n ==> charge(#[trigger] all[k]) is None
            &&& count > 0 ==> lo <= sum as int / count as int <= hi
        }),
    decreases n,
{
    if n > 0 {
        law_batteries_are_averaged(all, n - 1, lo, hi);
        let before = charges(all, n - 1);
        let s = all[n - 1];
        assert(lo * (before.1 + 1) == lo * before.1 + lo && hi * (before.1 + 1) == hi * before.1 + hi)
            by (nonlinear_arith);
        if charge(s) is Some && says(s.status@, "charging"@) {
            assert(charge(all[n - 1]) is Some);
        }
    } else {
        assert(lo * 0 == 0 && hi * 0 == 0);
    }
    let (sum, count, charging) = charges(all, n);
    if count > 0 {
        assert(lo <= sum as int / count as int <= hi) by (nonlinear_arith)
            requires
                lo * count <= sum <= hi * count,
                count > 0,
        ;
    }
}

} // verus!
