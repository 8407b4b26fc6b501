//! The local time of day: the IANA time zone files, the POSIX rules that follow their tables, and
//! the civil calendar under both.
use crate::bytes;
use crate::bytes::{be_i32, be_i64, be_u32};
use crate::strings;
use crate::strings::{push_two, utf8_text};
use vstd::arithmetic::div_mod;
use vstd::prelude::*;

verus! {

/// Seconds in a day.
pub const SECS_PER_DAY: i64 = 86_400;

/// The last year that days are counted for; the first one is its negative.
pub const YEAR_LIMIT: i64 = 20_000_000_000_000_000;

// ---- the civil calendar; 1 January 1970 is day 0 ----

/// Whether the year has a 29 February.
pub open spec fn leap(year: int) -> bool {
    (year % 4 == 0 && year % 100 != 0) || year % 400 == 0
}

/// How many leap years lie in the years 1 to `year`; negative for those before.
pub open spec fn leaps_upto(year: int) -> int {
    year / 4 - year / 100 + year / 400
}

/// The number of the day on which the year begins.
pub open spec fn year_start(year: int) -> int {
    365 * (year - 1970) + leaps_upto(year - 1) - leaps_upto(1969)
}

/// How many days the month has.
pub open spec fn month_len(year: int, month: int) -> int {
    if month == 2 {
        if leap(year) {
            29
        } else {
            28
        }
    } else if month == 4 || month == 6 || month == 9 || month == 11 {
        30
    } else {
        31
    }
}

/// How many days of the year come before the month.
pub open spec fn month_start(year: int, month: int) -> int
    decreases month,
{
    if month <= 1 {
        0
    } else {
        month_start(year, month - 1) + month_len(year, month - 1)
    }
}

/// The number of the day with this date.
pub open spec fn civil_day(year: int, month: int, day: int) -> int {
    year_start(year) + month_start(year, month) + day - 1
}

/// The day of the week, from 0 for Sunday; day 0 was a Thursday.
pub open spec fn weekday(days: int) -> int {
    (days + 4) % 7
}

/// The day of the month, from 0, of the `week`th day of the week `dow`; where the month has no
/// fifth one, its last one.
pub open spec fn nth_weekday(year: int, month: int, week: int, dow: int) -> int {
    let first = weekday(civil_day(year, month, 1));
    let weeks = if week == 0 {
        0
    } else {
        week - 1
    };
    let day = (dow - first) % 7 + weeks * 7;
    if day >= month_len(year, month) {
        day - 7
    } else {
        day
    }
}

proof fn lemma_month_start(year: int, month: int)
    requires
        1 <= month <= 13,
    ensures
        month <= 2 ==> month_start(year, month) == 31 * (month - 1),
        month > 2 ==> month_start(year, month) == (153 * (month - 3) + 2) / 5 + 59 + (if leap(
            year,
        ) {
            1int
        } else {
            0
        }),
{
    reveal_with_fuel(month_start, 14);
}

/// `a` divided by `b`, rounded down.
fn floor_div(a: i64, b: i64) -> (r: i64)
    requires
        b > 0,
    ensures
        r as int == a as int / b as int,
{
    if a >= 0 {
        a / b
    } else {
        let q: i64 = (-1 - a) / b;
        proof {
            let r = (-1 - a) % (b as int);
            assert(-1 - a == b * q + r) by {
                div_mod::lemma_fundamental_div_mod(-1 - a as int, b as int);
            }
            assert(a == (-1 - q) * b + (b - 1 - r)) by (nonlinear_arith)
                requires
                    -1 - a == b * q + r,
            ;
            div_mod::lemma_fundamental_div_mod_converse(a as int, b as int, -1 - q, b - 1 - r);
        }
        -1 - q
    }
}

/// Whether the year is a leap year.
pub fn is_leap(year: i64) -> (r: bool)
    ensures
        r == leap(year as int),
{
    (year % 4 == 0 && year % 100 != 0) || year % 400 == 0
}

/// How many days the month has.
pub fn days_in_month(year: i64, month: u32) -> (r: i64)
    requires
        1 <= month <= 12,
    ensures
        r == month_len(year as int, month as int),
{
    match month {
        1 | 3 | 5 | 7 | 8 | 10 | 12 => 31,
        4 | 6 | 9 | 11 => 30,
        _ => if is_leap(year) {
            29
        } else {
            28
        },
    }
}

/// The number of the day with this date.
pub fn days_from_civil(year: i64, month: u32, day: u32) -> (r: i64)
    requires
        -YEAR_LIMIT <= year <= YEAR_LIMIT,
        1 <= month <= 12,
    ensures
        r == civil_day(year as int, month as int, day as int),
{
    let before: i64 = year - 1;
    let leaps: i64 = floor_div(before, 4) - floor_div(before, 100) + floor_div(before, 400);
    let start: i64 = 365 * (year - 1970) + leaps - 477;
    let m: i64 = month as i64;
    let in_year: i64 = if m <= 2 {
        31 * (m - 1)
    } else {
        (153 * (m - 3) + 2) / 5 + 59 + (if is_leap(year) {
            1
        } else {
            0
        })
    };
    proof {
        lemma_month_start(year as int, month as int);
        assert(leaps_upto(1969) == 477);
    }
    start + in_year + day as i64 - 1
}

/// The date of the day: the year, the month from 1, and the day of the month from 1.
pub fn civil_from_days(days: i64) -> (r: (i64, u32, u32))
    requires
        i64::MIN + 1_000_000 <= days <= i64::MAX - 1_000_000,
    ensures
        1 <= r.1 <= 12,
        1 <= r.2 <= month_len(r.0 as int, r.1 as int),
        civil_day(r.0 as int, r.1 as int, r.2 as int) == days,
{
    let n: i64 = days + 719_162;
    let era: i64 = floor_div(n, 146_097);
    let in_era: i64 = n - era * 146_097;
    let c: i64 = if in_era / 36_524 > 3 {
        3
    } else {
        in_era / 36_524
    };
    let in_century: i64 = in_era - c * 36_524;
    let q: i64 = in_century / 1461;
    let in_four: i64 = in_century - q * 1461;
    let y: i64 = if in_four / 365 > 3 {
        3
    } else {
        in_four / 365
    };
    let doy: i64 = in_four - y * 365;
    let year: i64 = era * 400 + c * 100 + q * 4 + y + 1;
    proof {
        lemma_year_of(era as int, c as int, q as int, y as int, doy as int);
    }
    let ghost yr = year as int;
    let mut m: u32 = 1;
    let mut before: i64 = 0;
    let mut len: i64 = days_in_month(year, 1);
    assert(month_start(yr, 13) == 365 + (if leap(yr) {
        1int
    } else {
        0
    })) by {
        lemma_month_start(yr, 13);
    }
    while doy >= before + len
        invariant
            1 <= m <= 12,
            yr == year,
            before == month_start(yr, m as int),
            len == month_len(yr, m as int),
            0 <= before <= doy < month_start(yr, 13),
            month_start(yr, 13) <= 366,
        decreases 12 - m,
    {
        proof {
            assert(month_start(yr, m + 1) == before + len);
            assert(m < 12) by {
                if m == 12 {
                    assert(month_start(yr, 13) == before + len);
                }
            }
        }
        before = before + len;
        m = m + 1;
        len = days_in_month(year, m);
    }
    (year, m, (doy - before + 1) as u32)
}

/// A day counted by eras of 400 years, centuries, spans of four years and years lies in the year
/// that the counts add up to.
proof fn lemma_year_of(era: int, c: int, q: int, y: int, doy: int)
    requires
        0 <= c <= 3,
        0 <= q <= 24,
        0 <= y <= 3,
        0 <= doy <= 365,
        doy == 365 ==> y == 3 && (q < 24 || c == 3),
    ensures
        ({
            let year = era * 400 + c * 100 + q * 4 + y + 1;
            &&& year_start(year) == era * 146_097 + c * 36_524 + q * 1461 + y * 365 - 719_162
            &&& leap(year) == (y == 3 && (q < 24 || c == 3))
        }),
{
    let year = era * 400 + c * 100 + q * 4 + y + 1;
    let b = year - 1;
    div_mod::lemma_fundamental_div_mod_converse(b, 400, era, c * 100 + q * 4 + y);
    div_mod::lemma_fundamental_div_mod_converse(b, 100, era * 4 + c, q * 4 + y);
    div_mod::lemma_fundamental_div_mod_converse(b, 4, era * 100 + c * 25 + q, y);
    if y < 3 {
        div_mod::lemma_fundamental_div_mod_converse(year, 4, era * 100 + c * 25 + q, y + 1);
        div_mod::lemma_fundamental_div_mod_converse(year, 100, era * 4 + c, q * 4 + y + 1);
        div_mod::lemma_fundamental_div_mod_converse(year, 400, era, c * 100 + q * 4 + y + 1);
    } else {
        div_mod::lemma_fundamental_div_mod_converse(year, 4, era * 100 + c * 25 + q + 1, 0);
        if q < 24 {
            div_mod::lemma_fundamental_div_mod_converse(year, 100, era * 4 + c, q * 4 + y + 1);
        } else {
            div_mod::lemma_fundamental_div_mod_converse(year, 100, era * 4 + c + 1, 0);
            if c < 3 {
                div_mod::lemma_fundamental_div_mod_converse(year, 400, era, c * 100 + q * 4 + y + 1);
            } else {
                div_mod::lemma_fundamental_div_mod_converse(year, 400, era + 1, 0);
            }
        }
    }
}

/// The day of the week, from 0 for Sunday.
pub fn weekday_from_days(days: i64) -> (r: u32)
    requires
        i64::MIN + 1_000_000 <= days <= i64::MAX - 1_000_000,
    ensures
        r == weekday(days as int),
{
    let n: i64 = days + 4;
    (n - 7 * floor_div(n, 7)) as u32
}

/// The day of the month, from 0, of the `week`th day of the week `dow`; where the month has no
/// fifth one, its last one.
pub fn nth_weekday_of_month(year: i64, month: u32, week: u32, dow: u32) -> (r: i64)
    requires
        -YEAR_LIMIT <= year <= YEAR_LIMIT,
        1 <= month <= 12,
        week <= 5,
        dow <= 6,
    ensures
        r == nth_weekday(year as int, month as int, week as int, dow as int),
        0 <= r < month_len(year as int, month as int),
{
    proof {
        lemma_month_start(year as int, month as int);
    }
    let first: u32 = weekday_from_days(days_from_civil(year, month, 1));
    let ahead: i64 = if dow >= first {
        (dow - first) as i64
    } else {
        (dow + 7 - first) as i64
    };
    let weeks: i64 = if week == 0 {
        0
    } else {
        (week - 1) as i64
    };
    let day: i64 = ahead + weeks * 7;
    if day >= days_in_month(year, month) {
        day - 7
    } else {
        day
    }
}

/// The day that a rule names is a day of that month and that day of the week. One of the first
/// four is the one in that week of the month, and a fifth one is the last of the month.
pub proof fn law_nth_weekday(year: int, month: int, week: int, dow: int)
    requires
        1 <= month <= 12,
        1 <= week <= 5,
        0 <= dow <= 6,
    ensures
        ({
            let day = nth_weekday(year, month, week, dow);
            &&& 0 <= day < month_len(year, month)
            &&& weekday(civil_day(year, month, day + 1)) == dow
            &&& week <= 4 ==> day / 7 == week - 1
            &&& week == 5 ==> day + 7 >= month_len(year, month)
        }),
{
    let c = civil_day(year, month, 1);
    let first = weekday(c);
    let ahead = (dow - first) % 7;
    let day = nth_weekday(year, month, week, dow);
    let weeks = if ahead + (week - 1) * 7 >= month_len(year, month) {
        week - 2
    } else {
        week - 1
    };
    assert(day == ahead + 7 * weeks);
    assert(civil_day(year, month, day + 1) == c + day);
    div_mod::lemma_fundamental_div_mod(c + 4, 7);
    div_mod::lemma_fundamental_div_mod(dow - first, 7);
    let q = (c + 4) / 7 + weeks - (dow - first) / 7;
    assert(c + day + 4 == 7 * q + dow);
    div_mod::lemma_fundamental_div_mod_converse(c + day + 4, 7, q, dow);
}

/// The date of a day leads back to that day.
pub proof fn law_civil_day_roundtrip(y1: int, m1: int, d1: int, y2: int, m2: int, d2: int)
    requires
        1 <= m1 <= 12,
        1 <= d1 <= month_len(y1, m1),
        1 <= m2 <= 12,
        1 <= d2 <= month_len(y2, m2),
        civil_day(y1, m1, d1) == civil_day(y2, m2, d2),
    ensures
        y1 == y2,
        m1 == m2,
        d1 == d2,
{
    lemma_day_in_year(y1, m1, d1);
    lemma_day_in_year(y2, m2, d2);
    if y1 < y2 {
        lemma_years_apart(y1, y2);
    } else if y2 < y1 {
        lemma_years_apart(y2, y1);
    } else if m1 < m2 {
        lemma_months_apart(y1, m1, m2);
    } else if m2 < m1 {
        lemma_months_apart(y1, m2, m1);
    }
}

/// A step of one adds to a quotient where it reaches a multiple.
proof fn lemma_step_div(y: int, k: int)
    requires
        k > 1,
    ensures
        y / k - (y - 1) / k == (if y % k == 0 {
            1int
        } else {
            0
        }),
{
    let q = y / k;
    let r = y % k;
    div_mod::lemma_fundamental_div_mod(y, k);
    div_mod::lemma_mod_bound(y, k);
    if r == 0 {
        assert(y - 1 == (q - 1) * k + (k - 1)) by (nonlinear_arith)
            requires
                y == k * q + r,
                r == 0,
        ;
        div_mod::lemma_fundamental_div_mod_converse(y - 1, k, q - 1, k - 1);
    } else {
        assert(y - 1 == q * k + (r - 1)) by (nonlinear_arith)
            requires
                y == k * q + r,
        ;
        div_mod::lemma_fundamental_div_mod_converse(y - 1, k, q, r - 1);
    }
}

/// A leap year has 366 days, and another year 365.
proof fn lemma_year_len(year: int)
    ensures
        year_start(year + 1) - year_start(year) == (if leap(year) {
            366int
        } else {
            365
        }),
{
    lemma_step_div(year, 4);
    lemma_step_div(year, 100);
    lemma_step_div(year, 400);
    if year % 400 == 0 {
        let q = year / 400;
        div_mod::lemma_fundamental_div_mod_converse(year, 100, 4 * q, 0);
        div_mod::lemma_fundamental_div_mod_converse(year, 4, 100 * q, 0);
    } else if year % 100 == 0 {
        let q = year / 100;
        div_mod::lemma_fundamental_div_mod_converse(year, 4, 25 * q, 0);
    }
}

proof fn lemma_day_in_year(year: int, month: int, day: int)
    requires
        1 <= month <= 12,
        1 <= day <= month_len(year, month),
    ensures
        year_start(year) <= civil_day(year, month, day) < year_start(year + 1),
{
    lemma_month_start(year, month);
    lemma_year_len(year);
}

proof fn lemma_years_apart(a: int, b: int)
    requires
        a < b,
    ensures
        year_start(a + 1) <= year_start(b),
{
    let d = b - 1 - a;
    assert(b - 1 == a + d);
    assert((a + d) / 4 >= a / 4);
    assert((a + d) / 400 >= a / 400);
    assert((a + d) / 100 <= a / 100 + d);
}

proof fn lemma_months_apart(year: int, a: int, b: int)
    requires
        1 <= a < b <= 12,
    ensures
        month_start(year, a) + month_len(year, a) <= month_start(year, b),
    decreases b - a,
{
    if a + 1 < b {
        lemma_months_apart(year, a, b - 1);
    }
}

// ---- POSIX rules: `STDoffset[DST[offset][,start[/time],end[/time]]]` ----

/// A day of the year as a rule writes it.
#[derive(Clone, Copy, Debug, PartialEq, Eq)]
pub enum DayOfYear {
    /// `Jn`: 1 to 365, in which 29 February never counts.
    Julian(u32),
    /// `n`: 0 to 365, in which 29 February counts.
    Ordinal(u32),
    /// `Mm.w.d`: month 1 to 12, week 1 to 5 with 5 for the last, and day of the week from Sunday.
    MonthDay(u32, u32, u32),
}

impl DayOfYear {
    /// Whether month, week and day of the week exist.
    pub open spec fn wf(self) -> bool {
        match self {
            DayOfYear::MonthDay(m, w, d) => 1 <= m <= 12 && w <= 5 && d <= 6,
            _ => true,
        }
    }

    /// Which day of the year it is, from 0.
    pub open spec fn day_index(self, year: int) -> int {
        match self {
            DayOfYear::Julian(n) => {
                let d: int = if n == 0 {
                    0
                } else {
                    n - 1
                };
                if leap(year) && d >= 59 {
                    d + 1
                } else {
                    d
                }
            },
            DayOfYear::Ordinal(n) => if n > 365 {
                365
            } else {
                n as int
            },
            DayOfYear::MonthDay(m, w, d) => month_start(year, m as int) + nth_weekday(
                year,
                m as int,
                w as int,
                d as int,
            ),
        }
    }

    /// The second of the year with which the day begins.
    pub fn second_of_year(&self, year: i64) -> (r: i64)
        requires
            self.wf(),
            -YEAR_LIMIT <= year <= YEAR_LIMIT,
        ensures
            r == self.day_index(year as int) * 86_400,
            0 <= r <= 0x1_0000_0000 * 86_400,
    {
        let day0: i64 = match *self {
            DayOfYear::Julian(n) => {
                let d: i64 = if n == 0 {
                    0
                } else {
                    n as i64 - 1
                };
                if d >= 59 && is_leap(year) {
                    d + 1
                } else {
                    d
                }
            },
            DayOfYear::Ordinal(n) => if n > 365 {
                365
            } else {
                n as i64
            },
            DayOfYear::MonthDay(m, w, d) => {
                proof {
                    lemma_month_start(year as int, m as int);
                }
                let within_month: i64 = nth_weekday_of_month(year, m, w, d);
                let first: i64 = days_from_civil(year, m, 1);
                let jan1: i64 = days_from_civil(year, 1, 1);
                (first - jan1) + within_month
            },
        };
        day0 * SECS_PER_DAY
    }
}

/// A moment at which a rule switches: the day, and the second of that day.
#[derive(Clone, Copy, Debug, PartialEq, Eq)]
pub struct RuleTime {
    pub day: DayOfYear,
    pub at: i32,
}

/// A POSIX rule: standard time, and daylight saving time where there is one.
#[derive(Clone, Copy, Debug, PartialEq, Eq)]
pub struct PosixRule {
    /// Seconds by which standard time is ahead of UTC.
    pub std_off: i32,
    /// Seconds by which daylight saving time is ahead of UTC, its start and its end.
    pub dst: Option<(i32, RuleTime, RuleTime)>,
}

impl PosixRule {
    /// Whether the days of the rule exist.
    pub open spec fn wf(self) -> bool {
        match self.dst {
            Some((_, start, end)) => start.day.wf() && end.day.wf(),
            None => true,
        }
    }

    /// Whether daylight saving time is on at the second `std_local` of standard time in `year`. It
    /// starts by standard time and ends by its own, and may run over the end of a year.
    pub open spec fn in_dst(self, std_local: int, year: int) -> bool {
        match self.dst {
            None => false,
            Some((off, start, end)) => {
                let jan1 = year_start(year) * 86_400;
                let from = jan1 + start.day.day_index(year) * 86_400 + start.at;
                let to = jan1 + end.day.day_index(year) * 86_400 + end.at - (off - self.std_off);
                if from <= to {
                    from <= std_local < to
                } else {
                    from <= std_local || std_local < to
                }
            },
        }
    }

    /// Seconds by which local time is ahead of UTC at `epoch`, in a year by standard time.
    pub open spec fn offset_in(self, epoch: int, year: int) -> i32 {
        if self.in_dst(epoch + self.std_off, year) {
            (self.dst->0).0
        } else {
            self.std_off
        }
    }

    /// Seconds by which local time is ahead of UTC.
    pub open spec fn offset(self, epoch: int) -> i32 {
        self.offset_in(epoch, year_at(epoch + self.std_off))
    }

    /// Seconds by which local time is ahead of UTC at the moment `epoch`.
    pub fn offset_at(&self, epoch: i64) -> (r: i32)
        requires
            self.wf(),
        ensures
            r == self.offset(epoch as int),
    {
        let (dst_off, start, end) = match self.dst {
            None => {
                return self.std_off;
            },
            Some(d) => d,
        };
        let std_local: i128 = epoch as i128 + self.std_off as i128;
        let year: i64 = year_of_second(std_local);
        if self.dst_on(dst_off, start, end, std_local, year) {
            dst_off
        } else {
            self.std_off
        }
    }

    /// Whether daylight saving time is on at the second `std_local` of standard time in `year`.
    fn dst_on(
        &self,
        dst_off: i32,
        start: RuleTime,
        end: RuleTime,
        std_local: i128,
        year: i64,
    ) -> (r: bool)
        requires
            self.wf(),
            self.dst == Some((dst_off, start, end)),
            -1_000_000_000_000_000 <= year <= 1_000_000_000_000_000,
        ensures
            r == self.in_dst(std_local as int, year as int),
    {
        let jan1: i128 = days_from_civil(year, 1, 1) as i128 * SECS_PER_DAY as i128;
        assert(jan1 == year_start(year as int) * 86_400);
        let from: i128 = jan1 + start.day.second_of_year(year) as i128 + start.at as i128;
        let to: i128 = jan1 + end.day.second_of_year(year) as i128 + end.at as i128 - (dst_off as i128
            - self.std_off as i128);
        if from <= to {
            from <= std_local && std_local < to
        } else {
            from <= std_local || std_local < to
        }
    }
}

/// The day on which the second `local` lies.
fn day_of_second(local: i128) -> (r: i64)
    requires
        i64::MIN - 0x1_0000_0000 <= local <= i64::MAX + 0x1_0000_0000,
    ensures
        r == local / 86_400,
{
    if local >= 0 {
        (local / 86_400) as i64
    } else {
        let q: i128 = (-1 - local) / 86_400;
        assert(-1 - q == local / 86_400);
        (-1 - q) as i64
    }
}

/// The year in which the second `local` lies.
fn year_of_second(local: i128) -> (r: i64)
    requires
        i64::MIN - 0x1_0000_0000 <= local <= i64::MAX + 0x1_0000_0000,
    ensures
        r == year_at(local as int),
        -1_000_000_000_000_000 <= r <= 1_000_000_000_000_000,
        local - 366 * 86_400 <= year_start(r as int) * 86_400 <= local,
{
    let day: i64 = day_of_second(local);
    let date = civil_from_days(day);
    let year: i64 = date.0;
    proof {
        lemma_day_in_year(year as int, date.1 as int, date.2 as int);
        lemma_year_bound(year as int, day as int);
        lemma_year_at(local as int, year as int);
        lemma_year_len(year as int);
    }
    year
}

/// The year in which the second `local` lies, counted from 1 January 1970.
pub open spec fn year_at(local: int) -> int {
    choose|year: int| #[trigger] year_start(year) <= local / 86_400 < year_start(year + 1)
}

/// A year that holds the second is the year that holds it.
pub proof fn lemma_year_at(local: int, year: int)
    requires
        year_start(year) <= local / 86_400 < year_start(year + 1),
    ensures
        year_at(local) == year,
{
    let y = year_at(local);
    assert(year_start(y) <= local / 86_400 < year_start(y + 1));
    if y < year {
        lemma_years_apart(y, year);
    } else if year < y {
        lemma_years_apart(year, y);
    }
}

/// A year is not further from 1970 than its days are.
proof fn lemma_year_bound(year: int, day: int)
    requires
        year_start(year) <= day < year_start(year + 1),
        -200_000_000_000_000 <= day <= 200_000_000_000_000,
    ensures
        -1_000_000_000_000_000 <= year <= 1_000_000_000_000_000,
{
    assert(leaps_upto(year - 1) <= (year - 1) / 4 + 1 || year < 0);
    assert(-1 <= leaps_upto(year - 1) - ((year - 1) / 4 - (year - 1) / 100) - (year - 1) / 400 <= 1);
}

/// Whether the byte `c` stands at `i`.
pub open spec fn byte_at(b: Seq<u8>, i: int, c: u8) -> bool {
    0 <= i < b.len() && b[i] == c
}

/// Whether the byte is an ASCII digit.
pub open spec fn is_num(c: u8) -> bool {
    ('0' as u8) <= c <= ('9' as u8)
}

/// Whether the byte is an ASCII letter.
pub open spec fn is_alpha(c: u8) -> bool {
    (('a' as u8) <= c <= ('z' as u8)) || (('A' as u8) <= c <= ('Z' as u8))
}

/// Where the digits that begin at `i` end.
pub open spec fn digits_end(b: Seq<u8>, i: int) -> int
    decreases b.len() - i,
{
    if 0 <= i < b.len() && is_num(b[i]) {
        digits_end(b, i + 1)
    } else {
        i
    }
}

/// Where the letters and underscores that begin at `i` end.
pub open spec fn letters_end(b: Seq<u8>, i: int) -> int
    decreases b.len() - i,
{
    if 0 <= i < b.len() && (is_alpha(b[i]) || b[i] == ('_' as u8)) {
        letters_end(b, i + 1)
    } else {
        i
    }
}

/// Where the first `>` from `i` on stands.
pub open spec fn bracket_end(b: Seq<u8>, i: int) -> int
    decreases b.len() - i,
{
    if 0 <= i < b.len() && b[i] != ('>' as u8) {
        bracket_end(b, i + 1)
    } else {
        i
    }
}

/// The number that digits write in base ten.
pub open spec fn byte_decimal(b: Seq<u8>) -> nat
    decreases b.len(),
{
    if b.len() == 0 {
        0
    } else {
        (byte_decimal(b.drop_last()) * 10 + (b.last() - ('0' as u8))) as nat
    }
}

/// Where the name of a time zone that begins at `i` ends: letters, or anything in `<...>`.
pub open spec fn name_end(b: Seq<u8>, i: int) -> Option<int> {
    if byte_at(b, i, ('<' as u8)) {
        let j = bracket_end(b, i + 1);
        if j > i + 1 && j < b.len() {
            Some(j + 1)
        } else {
            None
        }
    } else {
        let j = letters_end(b, i);
        if j > i {
            Some(j)
        } else {
            None
        }
    }
}

/// The number that begins at `i`, and where it ends.
pub open spec fn number(b: Seq<u8>, i: int) -> Option<(int, int)> {
    let j = digits_end(b, i);
    if j > i && byte_decimal(b.subrange(i, j)) <= u32::MAX {
        Some((byte_decimal(b.subrange(i, j)) as int, j))
    } else {
        None
    }
}

/// A number of seconds and where it ends, where the number fits in `i32`.
pub open spec fn fitting(v: int, j: int) -> Option<(int, int)> {
    if v <= i32::MAX {
        Some((v, j))
    } else {
        None
    }
}

/// The seconds of `h[:mm[:ss]]` at `i`, and where it ends.
pub open spec fn clock_secs(b: Seq<u8>, i: int) -> Option<(int, int)> {
    match number(b, i) {
        None => None,
        Some((h, j)) => if !byte_at(b, j, (':' as u8)) {
            fitting(h * 3600, j)
        } else {
            match number(b, j + 1) {
                None => None,
                Some((m, k)) => if !byte_at(b, k, (':' as u8)) {
                    fitting(h * 3600 + m * 60, k)
                } else {
                    match number(b, k + 1) {
                        None => None,
                        Some((s, l)) => fitting(h * 3600 + m * 60 + s, l),
                    }
                },
            }
        },
    }
}

/// The seconds of `[+-]h[:mm[:ss]]` at `i`, and where it ends.
pub open spec fn signed_secs(b: Seq<u8>, i: int) -> Option<(int, int)> {
    if byte_at(b, i, ('-' as u8)) {
        match clock_secs(b, i + 1) {
            Some((v, j)) => Some((-v, j)),
            None => None,
        }
    } else if byte_at(b, i, ('+' as u8)) {
        clock_secs(b, i + 1)
    } else {
        clock_secs(b, i)
    }
}

/// The day of the year at `i`, and where it ends.
pub open spec fn rule_day(b: Seq<u8>, i: int) -> Option<(DayOfYear, int)> {
    if byte_at(b, i, ('J' as u8)) {
        match number(b, i + 1) {
            Some((n, j)) => if 1 <= n <= 365 {
                Some((DayOfYear::Julian(n as u32), j))
            } else {
                None
            },
            None => None,
        }
    } else if byte_at(b, i, ('M' as u8)) {
        match number(b, i + 1) {
            None => None,
            Some((m, j)) => if !byte_at(b, j, ('.' as u8)) {
                None
            } else {
                match number(b, j + 1) {
                    None => None,
                    Some((w, k)) => if !byte_at(b, k, ('.' as u8)) {
                        None
                    } else {
                        match number(b, k + 1) {
                            None => None,
                            Some((d, l)) => if 1 <= m <= 12 && 1 <= w <= 5 && d <= 6 {
                                Some((DayOfYear::MonthDay(m as u32, w as u32, d as u32), l))
                            } else {
                                None
                            },
                        }
                    },
                }
            },
        }
    } else {
        match number(b, i) {
            Some((n, j)) => if n <= 365 {
                Some((DayOfYear::Ordinal(n as u32), j))
            } else {
                None
            },
            None => None,
        }
    }
}

/// The moment of a switch at `i`, and where it ends; two in the morning where no time is given.
pub open spec fn rule_time(b: Seq<u8>, i: int) -> Option<(RuleTime, int)> {
    match rule_day(b, i) {
        None => None,
        Some((day, j)) => if byte_at(b, j, ('/' as u8)) {
            match signed_secs(b, j + 1) {
                Some((v, k)) => Some((RuleTime { day, at: v as i32 }, k)),
                None => None,
            }
        } else {
            Some((RuleTime { day, at: 7200 }, j))
        },
    }
}

/// The switches that begin at `i`; where there are none, from the last Sunday in March to the
/// first Sunday in November.
pub open spec fn switches(b: Seq<u8>, i: int) -> Option<(RuleTime, RuleTime)> {
    if !byte_at(b, i, (',' as u8)) {
        Some(
            (
                RuleTime { day: DayOfYear::MonthDay(3, 5, 0), at: 7200 },
                RuleTime { day: DayOfYear::MonthDay(11, 1, 0), at: 7200 },
            ),
        )
    } else {
        match rule_time(b, i + 1) {
            None => None,
            Some((start, j)) => if !byte_at(b, j, (',' as u8)) {
                None
            } else {
                match rule_time(b, j + 1) {
                    Some((end, k)) => Some((start, end)),
                    None => None,
                }
            },
        }
    }
}

/// How far ahead of UTC the daylight saving time is whose name ends at `i`, and where that ends;
/// an hour ahead of standard time where nothing is said.
pub open spec fn dst_offset(b: Seq<u8>, i: int, std_off: int) -> Option<(int, int)> {
    if 0 <= i < b.len() && (is_num(b[i]) || b[i] == ('-' as u8) || b[i] == ('+' as u8)) {
        match signed_secs(b, i) {
            Some((v, j)) => Some((-v, j)),
            None => None,
        }
    } else {
        fitting(std_off + 3600, i)
    }
}

/// The rule that the text writes. POSIX offsets say what is added to local time for UTC, so each
/// is negated.
pub open spec fn posix(b: Seq<u8>) -> Option<PosixRule> {
    match name_end(b, 0) {
        None => None,
        Some(i) => match signed_secs(b, i) {
            None => None,
            Some((off, j)) => {
                let std_off = -off;
                let named = 0 <= j < b.len() && (is_alpha(b[j]) || b[j] == ('<' as u8));
                let name = if named {
                    name_end(b, j)
                } else {
                    None
                };
                match name {
                    None => Some(PosixRule { std_off: std_off as i32, dst: None }),
                    Some(k) => match dst_offset(b, k, std_off) {
                        None => None,
                        Some((dst_off, l)) => match switches(b, l) {
                            None => None,
                            Some((start, end)) => Some(
                                PosixRule {
                                    std_off: std_off as i32,
                                    dst: Some((dst_off as i32, start, end)),
                                },
                            ),
                        },
                    },
                }
            },
        },
    }
}

/// A place in the text of a rule.
struct Spec<'a> {
    b: &'a [u8],
    i: usize,
}

proof fn lemma_byte_decimal_grows(s: Seq<u8>, i: int)
    requires
        0 <= i <= s.len(),
        forall|j: int| 0 <= j < s.len() ==> is_num(#[trigger] s[j]),
    ensures
        byte_decimal(s.take(i)) <= byte_decimal(s),
    decreases s.len() - i,
{
    if i == s.len() {
        assert(s.take(i) =~= s);
    } else {
        lemma_byte_decimal_grows(s, i + 1);
        assert(s.take(i + 1).drop_last() =~= s.take(i));
        assert(s.take(i + 1).last() == s[i]);
        assert(is_num(s[i]));
    }
}

impl<'a> Spec<'a> {
    spec fn wf(self) -> bool {
        self.i <= self.b@.len()
    }

    fn peek(&self) -> (r: Option<u8>)
        requires
            self.wf(),
        ensures
            r == (if self.i < self.b@.len() {
                Some(self.b@[self.i as int])
            } else {
                None::<u8>
            }),
    {
        if self.i < self.b.len() {
            Some(self.b[self.i])
        } else {
            None
        }
    }

    /// Steps over `c` where it comes next.
    fn eat(&mut self, c: u8) -> (r: bool)
        requires
            old(self).wf(),
        ensures
            final(self).wf(),
            final(self).b == old(self).b,
            r == byte_at(old(self).b@, old(self).i as int, c),
            final(self).i == old(self).i + (if r {
                1int
            } else {
                0
            }),
    {
        if self.i < self.b.len() && self.b[self.i] == c {
            self.i = self.i + 1;
            true
        } else {
            false
        }
    }

    /// Steps over the name of a time zone.
    fn read_name(&mut self) -> (r: bool)
        requires
            old(self).wf(),
        ensures
            final(self).wf(),
            final(self).b == old(self).b,
            match name_end(old(self).b@, old(self).i as int) {
                Some(j) => r && final(self).i == j,
                None => !r,
            },
    {
        let ghost b = self.b@;
        if self.i < self.b.len() && self.b[self.i] == ('<' as u8) {
            self.i = self.i + 1;
            let start: usize = self.i;
            while self.i < self.b.len() && self.b[self.i] != ('>' as u8)
                invariant
                    self.b@ == b,
                    self.b == old(self).b,
                    start <= self.i <= b.len(),
                    bracket_end(b, start as int) == bracket_end(b, self.i as int),
                decreases b.len() - self.i,
            {
                self.i = self.i + 1;
            }
            return self.i > start && self.eat('>' as u8);
        }
        let start: usize = self.i;
        while self.i < self.b.len() && (letter(self.b[self.i]) || self.b[self.i] == ('_' as u8))
            invariant
                self.b@ == b,
                self.b == old(self).b,
                start <= self.i <= b.len(),
                letters_end(b, start as int) == letters_end(b, self.i as int),
            decreases b.len() - self.i,
        {
            self.i = self.i + 1;
        }
        self.i > start
    }

    /// Reads a number.
    fn read_num(&mut self) -> (r: Option<u32>)
        requires
            old(self).wf(),
        ensures
            final(self).wf(),
            final(self).b == old(self).b,
            match number(old(self).b@, old(self).i as int) {
                Some((n, j)) => r == Some(n as u32) && final(self).i == j,
                None => r is None,
            },
    {
        let ghost b = self.b@;
        let start: usize = self.i;
        while self.i < self.b.len() && ('0' as u8) <= self.b[self.i] && self.b[self.i] <= ('9' as u8)
            invariant
                self.b@ == b,
                self.b == old(self).b,
                start <= self.i <= b.len(),
                digits_end(b, start as int) == digits_end(b, self.i as int),
                forall|j: int| start <= j < self.i ==> is_num(#[trigger] b[j]),
            decreases b.len() - self.i,
        {
            self.i = self.i + 1;
        }
        if self.i == start {
            return None;
        }
        let ghost all = b.subrange(start as int, self.i as int);
        let mut n: u64 = 0;
        let mut k: usize = start;
        while k < self.i
            invariant
                self.b@ == b,
                self.b == old(self).b,
                start == old(self).i,
                start <= k <= self.i <= b.len(),
                all == b.subrange(start as int, self.i as int),
                forall|j: int| 0 <= j < all.len() ==> is_num(#[trigger] all[j]),
                n == byte_decimal(all.take(k - start)),
                n <= u32::MAX,
                digits_end(b, start as int) == self.i,
            decreases self.i - k,
        {
            let c: u8 = self.b[k];
            proof {
                assert(all.take(k - start + 1).drop_last() =~= all.take(k - start));
                assert(all.take(k - start + 1).last() == all[k - start]);
                assert(is_num(all[k - start]));
                lemma_byte_decimal_grows(all, k - start + 1);
            }
            n = n * 10 + (c - ('0' as u8)) as u64;
            if n > u32::MAX as u64 {
                return None;
            }
            k = k + 1;
        }
        assert(all.take(all.len() as int) =~= all);
        Some(n as u32)
    }

    /// Reads `[+-]h[:mm[:ss]]`.
    fn read_offset(&mut self) -> (r: Option<i32>)
        requires
            old(self).wf(),
        ensures
            final(self).wf(),
            final(self).b == old(self).b,
            match signed_secs(old(self).b@, old(self).i as int) {
                Some((n, j)) => r == Some(n as i32) && -i32::MAX <= n <= i32::MAX && final(self).i
                    == j,
                None => r is None,
            },
    {
        if self.eat('-' as u8) {
            match self.read_clock_secs() {
                Some(v) => Some(-v),
                None => None,
            }
        } else if self.eat('+' as u8) {
            self.read_clock_secs()
        } else {
            self.read_clock_secs()
        }
    }

    /// Reads `h[:mm[:ss]]`.
    fn read_clock_secs(&mut self) -> (r: Option<i32>)
        requires
            old(self).wf(),
        ensures
            final(self).wf(),
            final(self).b == old(self).b,
            match clock_secs(old(self).b@, old(self).i as int) {
                Some((n, j)) => r == Some(n as i32) && 0 <= n <= i32::MAX && final(self).i == j,
                None => r is None,
            },
    {
        let mut secs: u64 = match self.read_num() {
            Some(n) => n as u64 * 3600,
            None => {
                return None;
            },
        };
        if self.eat(':' as u8) {
            secs = secs + match self.read_num() {
                Some(n) => n as u64 * 60,
                None => {
                    return None;
                },
            };
            if self.eat(':' as u8) {
                secs = secs + match self.read_num() {
                    Some(n) => n as u64,
                    None => {
                        return None;
                    },
                };
            }
        }
        if secs <= i32::MAX as u64 {
            Some(secs as i32)
        } else {
            None
        }
    }

    /// Reads a day of the year.
    fn read_day(&mut self) -> (r: Option<DayOfYear>)
        requires
            old(self).wf(),
        ensures
            final(self).wf(),
            final(self).b == old(self).b,
            match rule_day(old(self).b@, old(self).i as int) {
                Some((d, j)) => r == Some(d) && d.wf() && final(self).i == j,
                None => r is None,
            },
    {
        if self.eat('J' as u8) {
            let n: u32 = match self.read_num() {
                Some(n) => n,
                None => {
                    return None;
                },
            };
            if n < 1 || n > 365 {
                return None;
            }
            return Some(DayOfYear::Julian(n));
        }
        if self.eat('M' as u8) {
            let m: u32 = match self.read_num() {
                Some(n) => n,
                None => {
                    return None;
                },
            };
            if !self.eat('.' as u8) {
                return None;
            }
            let w: u32 = match self.read_num() {
                Some(n) => n,
                None => {
                    return None;
                },
            };
            if !self.eat('.' as u8) {
                return None;
            }
            let d: u32 = match self.read_num() {
                Some(n) => n,
                None => {
                    return None;
                },
            };
            if m < 1 || m > 12 || w < 1 || w > 5 || d > 6 {
                return None;
            }
            return Some(DayOfYear::MonthDay(m, w, d));
        }
        match self.read_num() {
            Some(n) => if n > 365 {
                None
            } else {
                Some(DayOfYear::Ordinal(n))
            },
            None => None,
        }
    }

    /// Reads the moment of a switch.
    fn read_rule_time(&mut self) -> (r: Option<RuleTime>)
        requires
            old(self).wf(),
        ensures
            final(self).wf(),
            final(self).b == old(self).b,
            match rule_time(old(self).b@, old(self).i as int) {
                Some((t, j)) => r == Some(t) && t.day.wf() && final(self).i == j,
                None => r is None,
            },
    {
        let day = match self.read_day() {
            Some(d) => d,
            None => {
                return None;
            },
        };
        let at: i32 = if self.eat('/' as u8) {
            match self.read_offset() {
                Some(v) => v,
                None => {
                    return None;
                },
            }
        } else {
            7200
        };
        Some(RuleTime { day, at })
    }
}

/// Whether the byte is an ASCII letter.
fn letter(c: u8) -> (r: bool)
    ensures
        r == is_alpha(c),
{
    (('a' as u8) <= c && c <= ('z' as u8)) || (('A' as u8) <= c && c <= ('Z' as u8))
}

/// The rule that `spec` writes; `None` where it is not one.
pub fn parse_posix(spec: &str) -> (r: Option<PosixRule>)
    ensures
        r == posix(vstd::utf8::encode_utf8(spec@)),
        r matches Some(rule) ==> rule.wf(),
{
    let mut s = Spec { b: spec.as_bytes(), i: 0 };
    if !s.read_name() {
        return None;
    }
    let std_off: i32 = match s.read_offset() {
        Some(v) => -v,
        None => {
            return None;
        },
    };
    let named = match s.peek() {
        Some(c) => letter(c) || c == ('<' as u8),
        None => false,
    };
    if !named || !s.read_name() {
        return Some(PosixRule { std_off, dst: None });
    }
    let stated = match s.peek() {
        Some(c) => (('0' as u8) <= c && c <= ('9' as u8)) || c == ('-' as u8) || c == ('+' as u8),
        None => false,
    };
    let dst_off: i32 = if stated {
        match s.read_offset() {
            Some(v) => -v,
            None => {
                return None;
            },
        }
    } else if std_off > i32::MAX - 3600 {
        return None;
    } else {
        std_off + 3600
    };
    if s.eat(',' as u8) {
        let start = match s.read_rule_time() {
            Some(t) => t,
            None => {
                return None;
            },
        };
        if !s.eat(',' as u8) {
            return None;
        }
        match s.read_rule_time() {
            Some(end) => Some(PosixRule { std_off, dst: Some((dst_off, start, end)) }),
            None => None,
        }
    } else {
        let start = RuleTime { day: DayOfYear::MonthDay(3, 5, 0), at: 7200 };
        let end = RuleTime { day: DayOfYear::MonthDay(11, 1, 0), at: 7200 };
        Some(PosixRule { std_off, dst: Some((dst_off, start, end)) })
    }
}

// ---- the files of the time zone database ----

/// The six counts in the header of a block.
pub struct Counts {
    pub isut: usize,
    pub isstd: usize,
    pub leap: usize,
    pub time: usize,
    pub kind: usize,
    pub chars: usize,
}

/// The counts of the block that begins at `start`; `None` where its header is cut off, or where a
/// count is beyond reason.
pub open spec fn counts_at(d: Seq<u8>, start: int) -> Option<Counts> {
    let at = start + 20;
    let c = Counts {
        isut: bytes::be32(d, at) as usize,
        isstd: bytes::be32(d, at + 4) as usize,
        leap: bytes::be32(d, at + 8) as usize,
        time: bytes::be32(d, at + 12) as usize,
        kind: bytes::be32(d, at + 16) as usize,
        chars: bytes::be32(d, at + 20) as usize,
    };
    if start + 44 > d.len() || c.time > 100_000 || c.kind > 1000 || c.chars > 10_000 || c.leap
        > 1000 {
        None
    } else {
        Some(c)
    }
}

impl Counts {
    /// Where the kinds begin in a block at `start` whose times take `width` bytes.
    pub open spec fn kinds_at(self, start: int, width: int) -> int {
        start + 44 + self.time * width
    }

    /// Where the types begin.
    pub open spec fn types_at(self, start: int, width: int) -> int {
        self.kinds_at(start, width) + self.time
    }

    /// Where the block ends.
    pub open spec fn end(self, start: int, width: int) -> int {
        self.types_at(start, width) + self.kind * 6 + self.chars + self.leap * (width + 4)
            + self.isstd + self.isut
    }
}

/// Where the first line feed from `i` on stands; the length where there is none.
pub open spec fn line_end(d: Seq<u8>, i: int) -> int
    decreases d.len() - i,
{
    if 0 <= i < d.len() && d[i] != 10 {
        line_end(d, i + 1)
    } else {
        i
    }
}

/// The rule in the line behind the tables, which end at `end`.
pub open spec fn tail_rule(d: Seq<u8>, end: int) -> Option<PosixRule> {
    let nl = line_end(d, end);
    if nl >= d.len() {
        None
    } else {
        let line = d.subrange(nl + 1, line_end(d, nl + 1));
        if line.len() == 0 || !vstd::utf8::valid_utf8(line) {
            None
        } else {
            posix(line)
        }
    }
}

/// A time zone: the table of its transitions, and the rule for what comes after them.
pub struct Zone {
    /// The moments of the transitions, ascending.
    pub times: Vec<i64>,
    /// For each transition the index of the type that begins with it.
    pub kinds: Vec<usize>,
    /// The types of local time: seconds ahead of UTC, and whether it is daylight saving time.
    pub types: Vec<(i32, bool)>,
    /// The rule after the last transition, and throughout where there is none.
    pub rule: Option<PosixRule>,
}

/// The bytes that a file of the database begins with.
pub open spec fn has_magic(d: Seq<u8>) -> bool {
    d.len() >= 44 && d[0] == 'T' as u8 && d[1] == 'Z' as u8 && d[2] == 'i' as u8 && d[3]
        == 'f' as u8
}

/// Where the block to read begins, how many bytes a moment takes in it, and its counts. From the
/// second version on it is the second block, which holds moments beyond 2038.
pub open spec fn tzif_block(d: Seq<u8>) -> Option<(int, int, Counts)> {
    match counts_at(d, 0) {
        None => None,
        Some(first) => {
            let old_version = d[4] == 0 || d[4] == '1' as u8;
            let start = if old_version {
                0
            } else {
                first.end(0, 4)
            };
            let width = if old_version {
                4int
            } else {
                8
            };
            match counts_at(d, start) {
                None => None,
                Some(c) => if d.len() < c.end(start, width) {
                    None
                } else {
                    Some((start, width, c))
                },
            }
        },
    }
}

impl Zone {
    /// What a file of the database says.
    pub open spec fn is_tzif(self, d: Seq<u8>, start: int, width: int, c: Counts) -> bool {
        &&& self.times@ == Seq::new(
            c.time as nat,
            |i: int|
                if width == 4 {
                    bytes::be32_signed(d, start + 44 + i * 4) as i64
                } else {
                    bytes::be64_signed(d, start + 44 + i * 8) as i64
                },
        )
        &&& self.kinds@ == Seq::new(c.time as nat, |i: int| d[c.kinds_at(start, width) + i] as usize)
        &&& self.types@ == Seq::new(
            c.kind as nat,
            |i: int|
                (
                    bytes::be32_signed(d, c.types_at(start, width) + i * 6) as i32,
                    d[c.types_at(start, width) + i * 6 + 4] != 0,
                ),
        )
        &&& self.rule == tail_rule(d, c.end(start, width))
    }

    /// Whether local times can be worked out: no transition comes after a later one, each leads to a type that
    /// exists, and so do the days of the rule.
    pub open spec fn wf(self) -> bool {
        &&& self.kinds@.len() == self.times@.len()
        &&& forall|i: int, j: int|
            0 <= i < j < self.times@.len() ==> #[trigger] self.times@[i] <= #[trigger] self.times@[j]
        &&& forall|i: int|
            0 <= i < self.kinds@.len() ==> #[trigger] self.kinds@[i] < self.types@.len()
        &&& self.rule matches Some(rule) ==> rule.wf()
    }

    /// The offset before the first transition: that of the first type that is not daylight saving
    /// time, else that of the first type, else none.
    pub open spec fn earliest(self) -> int {
        let plain = first_plain(self.types@, 0);
        if plain < self.types@.len() {
            self.types@[plain].0 as int
        } else if self.types@.len() > 0 {
            self.types@[0].0 as int
        } else {
            0
        }
    }

    /// Seconds by which local time is ahead of UTC at the moment `epoch`.
    pub open spec fn is_offset(self, epoch: int, off: int) -> bool {
        let n = self.times@.len();
        if self.rule is Some && (n == 0 || epoch >= self.times@[n - 1]) {
            off == self.rule->0.offset(epoch)
        } else if n == 0 || epoch < self.times@[0] {
            off == self.earliest()
        } else {
            exists|i: int|
                0 <= i < n && #[trigger] self.times@[i] <= epoch && (i + 1 < n ==> epoch
                    < self.times@[i + 1]) && off == self.types@[self.kinds@[i] as int].0
        }
    }

    /// Coordinated universal time.
    pub fn utc() -> (r: Self)
        ensures
            r.wf(),
            r.times@.len() == 0,
            r.kinds@.len() == 0,
            r.types@ == seq![(0i32, false)],
            r.rule is None,
    {
        let mut types: Vec<(i32, bool)> = Vec::new();
        types.push((0, false));
        Zone { times: Vec::new(), kinds: Vec::new(), types, rule: None }
    }

    /// The zone that follows a POSIX rule throughout.
    pub fn from_posix(spec: &str) -> (r: Option<Self>)
        ensures
            match posix(vstd::utf8::encode_utf8(spec@)) {
                Some(rule) => r matches Some(z) && z.wf() && z.times@.len() == 0 && z.kinds@.len()
                    == 0 && z.types@ == seq![(rule.std_off, false)] && z.rule == Some(rule),
                None => r is None,
            },
    {
        let rule = match parse_posix(spec) {
            Some(rule) => rule,
            None => {
                return None;
            },
        };
        let mut types: Vec<(i32, bool)> = Vec::new();
        types.push((rule.std_off, false));
        Some(Zone { times: Vec::new(), kinds: Vec::new(), types, rule: Some(rule) })
    }

    /// Whether local times can be worked out from the zone. A file of the database that is not
    /// damaged always says so.
    pub fn is_sound(&self) -> (r: bool)
        requires
            self.rule matches Some(rule) ==> rule.wf(),
        ensures
            r == self.wf(),
    {
        if self.kinds.len() != self.times.len() {
            return false;
        }
        let mut i: usize = 0;
        while i < self.kinds.len()
            invariant
                i <= self.kinds@.len(),
                self.kinds@.len() == self.times@.len(),
                forall|j: int| 0 <= j < i ==> #[trigger] self.kinds@[j] < self.types@.len(),
                forall|j: int, k: int|
                    0 <= j < k < i ==> #[trigger] self.times@[j] <= #[trigger] self.times@[k],
            decreases self.kinds@.len() - i,
        {
            if self.kinds[i] >= self.types.len() {
                return false;
            }
            if i > 0 && self.times[i - 1] > self.times[i] {
                return false;
            }
            i = i + 1;
        }
        true
    }

    /// The one offset at the moment `epoch`.
    pub open spec fn offset(self, epoch: int) -> int {
        choose|off: int| self.is_offset(epoch, off)
    }

    /// Seconds by which local time is ahead of UTC at the moment `epoch`. Past the last transition
    /// the rule says it, in between the table.
    pub fn offset_at(&self, epoch: i64) -> (r: i32)
        requires
            self.wf(),
        ensures
            self.is_offset(epoch as int, r as int),
            r == self.offset(epoch as int),
    {
        let off: i32 = self.find_offset(epoch);
        proof {
            law_offset_is_unique(*self, epoch as int, off as int, self.offset(epoch as int));
        }
        off
    }

    fn find_offset(&self, epoch: i64) -> (r: i32)
        requires
            self.wf(),
        ensures
            self.is_offset(epoch as int, r as int),
    {
        let n: usize = self.times.len();
        match &self.rule {
            Some(rule) => {
                if n == 0 || epoch >= self.times[n - 1] {
                    return rule.offset_at(epoch);
                }
            },
            None => {},
        }
        if n == 0 || epoch < self.times[0] {
            let mut i: usize = 0;
            while i < self.types.len() && self.types[i].1
                invariant
                    i <= self.types@.len(),
                    first_plain(self.types@, 0) == first_plain(self.types@, i as int),
                decreases self.types@.len() - i,
            {
                i = i + 1;
            }
            return if i < self.types.len() {
                self.types[i].0
            } else if self.types.len() > 0 {
                self.types[0].0
            } else {
                0
            };
        }
        let mut lo: usize = 0;
        let mut hi: usize = n;
        while hi - lo > 1
            invariant
                lo < hi <= n,
                n == self.times@.len(),
                self.times@[lo as int] <= epoch,
                hi < n ==> epoch < self.times@[hi as int],
            decreases hi - lo,
        {
            let mid: usize = lo + (hi - lo) / 2;
            if self.times[mid] <= epoch {
                lo = mid;
            } else {
                hi = mid;
            }
        }
        let kind: usize = self.kinds[lo];
        assert(self.times@[lo as int] <= epoch);
        self.types[kind].0
    }

    /// The local time of day at the moment `epoch`.
    pub fn hms(&self, epoch: i64) -> (r: (u32, u32, u32))
        requires
            self.wf(),
        ensures
            r.0 <= 23,
            r.1 <= 59,
            r.2 <= 59,
            r.0 * 3600 + r.1 * 60 + r.2 == (epoch + self.offset(epoch as int)) % 86_400,
    {
        let off: i32 = self.offset_at(epoch);
        let local: i128 = epoch as i128 + off as i128;
        let sod: u32 = (local - 86_400 * day_of_second(local) as i128) as u32;
        (sod / 3600, sod % 3600 / 60, sod % 60)
    }
}

/// The first type from `i` on that is not daylight saving time.
pub open spec fn first_plain(types: Seq<(i32, bool)>, i: int) -> int
    decreases types.len() - i,
{
    if 0 <= i < types.len() && types[i].1 {
        first_plain(types, i + 1)
    } else {
        i
    }
}

/// A moment has one offset.
pub proof fn law_offset_is_unique(z: Zone, epoch: int, a: int, b: int)
    requires
        z.wf(),
        z.is_offset(epoch, a),
        z.is_offset(epoch, b),
    ensures
        a == b,
{
    let n = z.times@.len();
    if !(z.rule is Some && (n == 0 || epoch >= z.times@[n - 1])) && !(n == 0 || epoch
        < z.times@[0]) {
        let i = choose|i: int|
            0 <= i < n && #[trigger] z.times@[i] <= epoch && (i + 1 < n ==> epoch < z.times@[i + 1])
                && a == z.types@[z.kinds@[i] as int].0;
        let j = choose|i: int|
            0 <= i < n && #[trigger] z.times@[i] <= epoch && (i + 1 < n ==> epoch < z.times@[i + 1])
                && b == z.types@[z.kinds@[i] as int].0;
        if i < j {
            assert(i + 1 == j || z.times@[i + 1] <= z.times@[j]);
        } else if j < i {
            assert(j + 1 == i || z.times@[j + 1] <= z.times@[i]);
        }
    }
}

/// The moment that a clock shows; one that stands before 1970 counts as standing at its start.
pub open spec fn epoch_of(since_epoch: Option<u64>) -> int {
    match since_epoch {
        Some(s) => s as int,
        None => 0,
    }
}

/// The local time of day `since_epoch` seconds after the start of 1970; a clock that stands before
/// it has no such number and counts as standing at it.
pub fn now_hms(zone: &Zone, since_epoch: Option<u64>) -> (r: (u32, u32, u32))
    requires
        zone.wf(),
        since_epoch matches Some(s) ==> s <= i64::MAX,
    ensures
        r.0 <= 23,
        r.1 <= 59,
        r.2 <= 59,
        r.0 * 3600 + r.1 * 60 + r.2 == (epoch_of(since_epoch) + zone.offset(epoch_of(since_epoch)))
            % 86_400,
{
    let epoch: i64 = match since_epoch {
        Some(s) => s as i64,
        None => 0,
    };
    let r = zone.hms(epoch);
    assert(epoch == epoch_of(since_epoch));
    r
}

/// The counts of the block that begins at `start`.
fn header(d: &[u8], start: usize) -> (r: Option<Counts>)
    ensures
        r == counts_at(d@, start as int),
{
    if d.len() < 44 || start > d.len() - 44 {
        return None;
    }
    let at: usize = start + 20;
    let c = Counts {
        isut: be_u32(d, at) as usize,
        isstd: be_u32(d, at + 4) as usize,
        leap: be_u32(d, at + 8) as usize,
        time: be_u32(d, at + 12) as usize,
        kind: be_u32(d, at + 16) as usize,
        chars: be_u32(d, at + 20) as usize,
    };
    if c.time > 100_000 || c.kind > 1000 || c.chars > 10_000 || c.leap > 1000 {
        None
    } else {
        Some(c)
    }
}

impl Counts {
    /// Where a block at `start` ends.
    fn block_end(&self, start: usize, width: usize) -> (r: u128)
        requires
            self.time <= 100_000,
            self.kind <= 1000,
            self.chars <= 10_000,
            self.leap <= 1000,
            self.isut <= u32::MAX,
            self.isstd <= u32::MAX,
            width <= 8,
        ensures
            r == self.end(start as int, width as int),
    {
        let w: u128 = width as u128;
        assert(self.time * width <= 800_000) by (nonlinear_arith)
            requires
                self.time <= 100_000,
                width <= 8,
        ;
        assert(self.leap * (width + 4) <= 12_000) by (nonlinear_arith)
            requires
                self.leap <= 1000,
                width <= 8,
        ;
        start as u128 + 44 + self.time as u128 * w + self.time as u128 + self.kind as u128 * 6
            + self.chars as u128 + self.leap as u128 * (w + 4) + self.isstd as u128 + self.isut as u128
    }
}

/// Reads a file of the time zone database. `None` where it is none, or where it is cut off.
pub fn parse_tzif(data: &[u8]) -> (r: Option<Zone>)
    ensures
        r is Some <==> has_magic(data@) && tzif_block(data@) is Some,
        r matches Some(z) ==> {
            let (start, width, c) = tzif_block(data@)->0;
            z.is_tzif(data@, start, width, c) && (z.rule matches Some(rule) ==> rule.wf())
        },
{
    if data.len() < 44 || data[0] != 'T' as u8 || data[1] != 'Z' as u8 || data[2] != 'i' as u8
        || data[3] != 'f' as u8 {
        return None;
    }
    let first = match header(data, 0) {
        Some(c) => c,
        None => {
            return None;
        },
    };
    let old_version = data[4] == 0 || data[4] == '1' as u8;
    let (start, width): (usize, usize) = if old_version {
        (0, 4)
    } else {
        let end: u128 = first.block_end(0, 4);
        if end > data.len() as u128 {
            return None;
        }
        (end as usize, 8)
    };
    let c = match header(data, start) {
        Some(c) => c,
        None => {
            return None;
        },
    };
    let block_end: u128 = c.block_end(start, width);
    if block_end > data.len() as u128 {
        return None;
    }
    let end: usize = block_end as usize;
    let ghost d = data@;
    proof {
        assert(tzif_block(d) == Some((start as int, width as int, c)));
        assert(c.time * width >= 0) by (nonlinear_arith);
        assert(c.leap * (width + 4) >= 0) by (nonlinear_arith);
        assert(c.kinds_at(start as int, width as int) <= d.len());
    }
    assert(c.time * width <= d.len());
    let kinds_off: usize = start + 44 + c.time * width;
    let types_off: usize = kinds_off + c.time;
    let mut times: Vec<i64> = Vec::new();
    let mut i: usize = 0;
    while i < c.time
        invariant
            i <= c.time,
            data@ == d,
            width == 4 || width == 8,
            start + 44 + c.time * width <= data.len(),
            times@.len() == i,
            forall|j: int|
                0 <= j < i ==> #[trigger] times@[j] == (if width == 4 {
                    bytes::be32_signed(d, start + 44 + j * 4) as i64
                } else {
                    bytes::be64_signed(d, start + 44 + j * 8) as i64
                }),
        decreases c.time - i,
    {
        assert((i + 1) * width <= c.time * width) by (nonlinear_arith)
            requires
                i < c.time,
                width >= 0,
        ;
        if width == 4 {
            times.push(be_i32(data, start + 44 + i * 4) as i64);
        } else {
            times.push(be_i64(data, start + 44 + i * 8));
        }
        i = i + 1;
    }
    let mut kinds: Vec<usize> = Vec::new();
    i = 0;
    while i < c.time
        invariant
            i <= c.time,
            data@ == d,
            kinds_off + c.time <= data.len(),
            kinds@.len() == i,
            forall|j: int| 0 <= j < i ==> #[trigger] kinds@[j] == d[kinds_off + j] as usize,
        decreases c.time - i,
    {
        kinds.push(data[kinds_off + i] as usize);
        i = i + 1;
    }
    let mut types: Vec<(i32, bool)> = Vec::new();
    i = 0;
    while i < c.kind
        invariant
            i <= c.kind,
            data@ == d,
            types_off + c.kind * 6 <= data.len(),
            types@.len() == i,
            forall|j: int|
                0 <= j < i ==> #[trigger] types@[j] == (
                    bytes::be32_signed(d, types_off + j * 6) as i32,
                    d[types_off + j * 6 + 4] != 0,
                ),
        decreases c.kind - i,
    {
        let at: usize = types_off + i * 6;
        types.push((be_i32(data, at), data[at + 4] != 0));
        i = i + 1;
    }
    let rule = read_tail(data, end);
    let z = Zone { times, kinds, types, rule };
    proof {
        assert(z.times@ =~= Seq::new(
            c.time as nat,
            |i: int|
                if width == 4 {
                    bytes::be32_signed(d, start + 44 + i * 4) as i64
                } else {
                    bytes::be64_signed(d, start + 44 + i * 8) as i64
                },
        ));
        assert(z.kinds@ =~= Seq::new(
            c.time as nat,
            |i: int| d[c.kinds_at(start as int, width as int) + i] as usize,
        ));
        assert(z.types@ =~= Seq::new(
            c.kind as nat,
            |i: int|
                (
                    bytes::be32_signed(d, c.types_at(start as int, width as int) + i * 6) as i32,
                    d[c.types_at(start as int, width as int) + i * 6 + 4] != 0,
                ),
        ));
        assert(z.is_tzif(d, start as int, width as int, c));
    }
    Some(z)
}

/// The index of the first line feed from `i` on.
fn find_line_end(data: &[u8], i: usize) -> (r: usize)
    requires
        i <= data@.len(),
    ensures
        r == line_end(data@, i as int),
        i <= r <= data@.len(),
{
    let mut k: usize = i;
    while k < data.len() && data[k] != 10
        invariant
            i <= k <= data@.len(),
            line_end(data@, i as int) == line_end(data@, k as int),
        decreases data@.len() - k,
    {
        k = k + 1;
    }
    k
}

/// The rule in the line behind the tables.
fn read_tail(data: &[u8], end: usize) -> (r: Option<PosixRule>)
    requires
        end <= data@.len(),
    ensures
        r == tail_rule(data@, end as int),
        r matches Some(rule) ==> rule.wf(),
{
    let nl: usize = find_line_end(data, end);
    if nl >= data.len() {
        return None;
    }
    let stop: usize = find_line_end(data, nl + 1);
    let line = &data[nl + 1..stop];
    if line.len() == 0 {
        return None;
    }
    match utf8_text(line) {
        Some(s) => parse_posix(s),
        None => None,
    }
}

/// Where the time zone is to be looked for.
#[derive(Debug, PartialEq, Eq)]
pub enum ZoneSource {
    /// The zone of the machine, else UTC.
    Machine,
    /// A file, by its absolute path.
    File,
    /// A file of the database, by its name there; where it cannot be read, the name is a rule.
    Database,
    /// A rule.
    Rule,
}

/// What the value of `TZ` says, without the colon that it may begin with: nothing for the zone of
/// the machine, a path from the root for a file, a name with a slash for a file of the database,
/// and else a rule.
pub open spec fn zone_source(tz: Seq<char>) -> ZoneSource {
    if tz.len() == 0 {
        ZoneSource::Machine
    } else if tz[0] == '/' {
        ZoneSource::File
    } else if tz.contains('/') {
        ZoneSource::Database
    } else {
        ZoneSource::Rule
    }
}

/// `tz` without the colon that it may begin with.
pub open spec fn without_colon(tz: Seq<char>) -> Seq<char> {
    if tz.len() > 0 && tz[0] == ':' {
        tz.subrange(1, tz.len() as int)
    } else {
        tz
    }
}

/// Where the value of `TZ` says that the time zone is, and the name that is left of it.
pub fn zone_from_env(tz: &str) -> (r: (ZoneSource, String))
    ensures
        r.1@ == without_colon(tz@),
        r.0 == zone_source(without_colon(tz@)),
{
    let chars = strings::chars_of(tz);
    let body = if chars.len() > 0 && chars[0] == ':' {
        &chars[1..chars.len()]
    } else {
        &chars[0..chars.len()]
    };
    assert(body@ =~= without_colon(tz@));
    let source = if body.len() == 0 {
        ZoneSource::Machine
    } else if body[0] == '/' {
        ZoneSource::File
    } else if strings::in_set(body, '/') {
        ZoneSource::Database
    } else {
        ZoneSource::Rule
    };
    (source, strings::string_of(body))
}

// ---- the text of a time of day ----

/// The hour on a clock face.
pub open spec fn face_hour(h: int) -> int {
    if h == 0 {
        12
    } else if h <= 12 {
        h
    } else {
        h - 12
    }
}

/// The time of day as text: `HH:MM:SS`, or `hh:mm:ss AM` on a clock of twelve hours.
pub open spec fn hms_text(h: nat, m: nat, s: nat, use_12h: bool) -> Seq<char> {
    let hour = if use_12h {
        face_hour(h as int) as nat
    } else {
        h
    };
    let base = strings::two_digits(hour) + seq![':'] + strings::two_digits(m) + seq![':']
        + strings::two_digits(s);
    if !use_12h {
        base
    } else if h < 12 {
        base + " AM"@
    } else {
        base + " PM"@
    }
}

/// The time of day as text. Midnight and noon are both 12 on a clock of twelve hours.
pub fn format_hms(h: u32, m: u32, s: u32, use_12h: bool) -> (r: String)
    ensures
        r@ == hms_text(h as nat, m as nat, s as nat, use_12h),
{
    let hour: u32 = if !use_12h {
        h
    } else if h == 0 {
        12
    } else if h <= 12 {
        h
    } else {
        h - 12
    };
    let mut out = String::new();
    push_two(&mut out, hour as u64);
    out.push(':');
    push_two(&mut out, m as u64);
    out.push(':');
    push_two(&mut out, s as u64);
    let ghost base = strings::two_digits(hour as nat) + seq![':'] + strings::two_digits(m as nat)
        + seq![':'] + strings::two_digits(s as nat);
    assert(out@ =~= base);
    if use_12h {
        if h < 12 {
            out.append(" AM");
        } else {
            out.append(" PM");
        }
    }
    out
}

// ---- when the clocks are changed ----

/// The moment at which daylight saving time starts in a year: a clock that shows standard time then
/// reads what the rule says.
pub open spec fn starts_at(rule: PosixRule, start: RuleTime, year: int) -> int {
    (year_start(year) + start.day.day_index(year)) * 86_400 + start.at - rule.std_off
}

/// The moment at which daylight saving time ends in a year: a clock that shows it then reads what
/// the rule says.
pub open spec fn ends_at(off: i32, end: RuleTime, year: int) -> int {
    (year_start(year) + end.day.day_index(year)) * 86_400 + end.at - off
}

/// Whether a moment lies in a year, by standard time.
pub open spec fn lies_in(rule: PosixRule, epoch: int, year: int) -> bool {
    year_start(year) * 86_400 <= epoch + rule.std_off < year_start(year + 1) * 86_400
}

proof fn lemma_lies_in(rule: PosixRule, epoch: int, year: int)
    requires
        lies_in(rule, epoch, year),
    ensures
        year_at(epoch + rule.std_off) == year,
{
    lemma_year_at(epoch + rule.std_off, year);
}

/// Each year the clocks are put forward at the start of daylight saving time and back at its end:
/// the second before either still has the other time. At no other second of a year are they changed.
pub proof fn law_clocks_change_twice_a_year(
    rule: PosixRule,
    off: i32,
    start: RuleTime,
    end: RuleTime,
    year: int,
    epoch: int,
)
    requires
        rule.dst == Some((off, start, end)),
        starts_at(rule, start, year) != ends_at(off, end, year),
        lies_in(rule, epoch, year),
    ensures
        epoch == starts_at(rule, start, year) ==> rule.offset(epoch) == off,
        epoch + 1 == starts_at(rule, start, year) ==> rule.offset(epoch) == rule.std_off,
        epoch == ends_at(off, end, year) ==> rule.offset(epoch) == rule.std_off,
        epoch + 1 == ends_at(off, end, year) ==> rule.offset(epoch) == off,
        lies_in(rule, epoch - 1, year) && epoch != starts_at(rule, start, year) && epoch != ends_at(
            off,
            end,
            year,
        ) ==> rule.offset(epoch - 1) == rule.offset(epoch),
{
    lemma_lies_in(rule, epoch, year);
    if lies_in(rule, epoch - 1, year) {
        lemma_lies_in(rule, epoch - 1, year);
    }
}

/// Where daylight saving time starts after it ends, as south of the equator, it is standard time
/// from the end to the start and daylight saving time in the rest of the year; and so it is over the
/// end of a year. Where it starts before it ends, it is the other way round.
pub proof fn law_seasons(
    rule: PosixRule,
    off: i32,
    start: RuleTime,
    end: RuleTime,
    year: int,
    epoch: int,
)
    requires
        rule.dst == Some((off, start, end)),
        lies_in(rule, epoch, year),
    ensures
        ({
            let (s, e) = (starts_at(rule, start, year), ends_at(off, end, year));
            &&& e <= epoch < s ==> rule.offset(epoch) == rule.std_off
            &&& e < s && !(e <= epoch < s) ==> rule.offset(epoch) == off
            &&& s <= epoch < e ==> rule.offset(epoch) == off
            &&& s <= e && !(s <= epoch < e) ==> rule.offset(epoch) == rule.std_off
        }),
{
    lemma_lies_in(rule, epoch, year);
}

/// Where daylight saving time starts after it ends, both times occur in a year that both moments
/// lie in: the second before the start and the start itself differ, unless they are the same time.
pub proof fn law_both_times_occur(rule: PosixRule, off: i32, start: RuleTime, end: RuleTime, year: int)
    requires
        rule.dst == Some((off, start, end)),
        lies_in(rule, starts_at(rule, start, year), year),
        lies_in(rule, ends_at(off, end, year), year),
        starts_at(rule, start, year) != ends_at(off, end, year),
    ensures
        rule.offset(starts_at(rule, start, year)) == off,
        rule.offset(ends_at(off, end, year)) == rule.std_off,
{
    law_clocks_change_twice_a_year(rule, off, start, end, year, starts_at(rule, start, year));
    law_clocks_change_twice_a_year(rule, off, start, end, year, ends_at(off, end, year));
}

/// A rule without daylight saving time is standard time always.
pub proof fn law_without_daylight_saving(rule: PosixRule, epoch: int)
    requires
        rule.dst is None,
    ensures
        rule.offset(epoch) == rule.std_off,
{
}

/// A day counted without 29 February has the same date in every year, and is never that day.
pub proof fn law_julian_days_keep_their_date(n: u32, y1: int, y2: int, month: int, day: int)
    requires
        1 <= n <= 365,
        1 <= month <= 12,
        1 <= day <= month_len(y1, month),
        civil_day(y1, month, day) == year_start(y1) + DayOfYear::Julian(n).day_index(y1),
    ensures
        !(month == 2 && day == 29),
        civil_day(y2, month, day) == year_start(y2) + DayOfYear::Julian(n).day_index(y2),
{
    reveal_with_fuel(month_start, 13);
}

/// A day counted with 29 February is that many days after 1 January, and the last day of a leap year
/// at most.
pub proof fn law_ordinal_days_count(n: u32, year: int)
    ensures
        n <= 365 ==> year_start(year) + DayOfYear::Ordinal(n).day_index(year) == civil_day(year, 1, 1)
            + n,
        n >= 365 ==> DayOfYear::Ordinal(n).day_index(year) == 365,
{
    reveal_with_fuel(month_start, 2);
}

/// Years: a year has 365 days and a leap year one more, of which there are 97 in each 400 years.
pub proof fn law_years(year: int)
    ensures
        year_start(1970) == 0,
        year_start(year + 1) - year_start(year) == (if leap(year) {
            366int
        } else {
            365
        }),
        year_start(year + 400) - year_start(year) == 400 * 365 + 97,
        year % 100 != 0 ==> (leap(year) <==> year % 4 == 0),
{
    lemma_year_len(year);
    let y = year - 1;
    lemma_far_div(y, 4, 100);
    lemma_far_div(y, 100, 4);
    lemma_far_div(y, 400, 1);
    assert(leaps_upto(y + 400) == leaps_upto(y) + 97);
    if year % 100 != 0 {
        assert(year % 400 != 0) by {
            if year % 400 == 0 {
                div_mod::lemma_fundamental_div_mod(year, 400);
                div_mod::lemma_fundamental_div_mod_converse(year, 100, 4 * (year / 400), 0);
            }
        }
    }
}

proof fn lemma_far_div(y: int, d: int, k: int)
    requires
        d > 0,
        d * k == 400,
    ensures
        (y + 400) / d == y / d + k,
{
    div_mod::lemma_fundamental_div_mod(y, d);
    assert((y / d + k) * d == d * (y / d) + d * k) by (nonlinear_arith);
    div_mod::lemma_fundamental_div_mod_converse(y + 400, d, y / d + k, y % d);
}

/// Months: from March on they have 31 and 30 days in turn, but that July and August, and December and
/// January, both have 31.
pub proof fn law_months(year: int, month: int)
    requires
        1 <= month <= 12,
    ensures
        month_start(year, 1) == 0,
        month_start(year, 2) == 31,
        month_start(year, 3) == (if leap(year) {
            60int
        } else {
            59
        }),
        month >= 3 ==> month_start(year, month) == month_start(year, 3) + (153 * (month - 3) + 2) / 5,
        month_start(year, 12) + month_len(year, 12) == (if leap(year) {
            366int
        } else {
            365
        }),
{
    reveal_with_fuel(month_start, 13);
}

/// Each date is a day after the one before it, and 1 January 1970 is day 0.
pub proof fn law_dates_follow(year: int, month: int, day: int)
    requires
        1 <= month <= 12,
        1 <= day <= month_len(year, month),
    ensures
        civil_day(1970, 1, 1) == 0,
        day < month_len(year, month) ==> civil_day(year, month, day + 1) == civil_day(year, month, day) + 1,
        day == month_len(year, month) && month < 12 ==> civil_day(year, month + 1, 1) == civil_day(
            year,
            month,
            day,
        ) + 1,
        day == month_len(year, month) && month == 12 ==> civil_day(year + 1, 1, 1) == civil_day(
            year,
            month,
            day,
        ) + 1,
{
    law_years(year);
    law_months(year, month);
    law_months(year + 1, 1);
}

/// A week has seven days, and day 0 was a Thursday.
pub proof fn law_week(days: int)
    ensures
        0 <= weekday(days) <= 6,
        weekday(0) == 4,
        weekday(days + 1) == (weekday(days) + 1) % 7,
{
}

/// On a clock of twelve hours the hour goes from 1 to 12, twice a day: before noon with AM, and then
/// with PM.
pub proof fn law_twelve_hours(h: nat, m: nat, s: nat)
    requires
        h < 24,
    ensures
        1 <= face_hour(h as int) <= 12,
        face_hour(h as int) % 12 == h % 12,
        hms_text(h, m, s, true) == hms_text(face_hour(h as int) as nat, m, s, false) + (if h < 12 {
            " AM"@
        } else {
            " PM"@
        }),
{
}

proof fn lemma_one_digit(b: Seq<u8>, i: int)
    requires
        0 <= i < b.len(),
        is_num(b[i]),
        i + 1 < b.len() ==> !is_num(b[i + 1]),
    ensures
        number(b, i) == Some((b[i] - 48, i + 1)),
{
    reveal_with_fuel(digits_end, 3);
    reveal_with_fuel(byte_decimal, 3);
    let s = b.subrange(i, i + 1);
    assert(s.drop_last() =~= Seq::<u8>::empty());
    assert(s.last() == b[i]);
}

proof fn lemma_two_digits(b: Seq<u8>, i: int)
    requires
        0 <= i,
        i + 1 < b.len(),
        is_num(b[i]),
        is_num(b[i + 1]),
        i + 2 < b.len() ==> !is_num(b[i + 2]),
    ensures
        number(b, i) == Some((10 * (b[i] - 48) + (b[i + 1] - 48), i + 2)),
{
    reveal_with_fuel(digits_end, 4);
    reveal_with_fuel(byte_decimal, 4);
    let s = b.subrange(i, i + 2);
    assert(s.drop_last() =~= b.subrange(i, i + 1));
    assert(b.subrange(i, i + 1).drop_last() =~= Seq::<u8>::empty());
    assert(s.last() == b[i + 1]);
    assert(b.subrange(i, i + 1).last() == b[i]);
}

/// A time in a rule is hours, minutes and seconds; with a `-` in front it is as much before.
pub proof fn law_rule_times_are_read(b: Seq<u8>, i: int)
    requires
        0 <= i,
        i + 9 <= b.len(),
        b[i] == '-' as u8 || b[i] == '+' as u8,
        is_num(b[i + 1]) && is_num(b[i + 2]) && is_num(b[i + 4]) && is_num(b[i + 5]) && is_num(b[i + 7])
            && is_num(b[i + 8]),
        b[i + 3] == ':' as u8 && b[i + 6] == ':' as u8,
        i + 9 < b.len() ==> !is_num(b[i + 9]),
    ensures
        ({
            let v = |k: int| 10 * (b[k] - 48) + (b[k + 1] - 48);
            let secs = 3600 * v(i + 1) + 60 * v(i + 4) + v(i + 7);
            &&& clock_secs(b, i + 1) == Some((secs, i + 9))
            &&& signed_secs(b, i) == Some(
                (
                    if b[i] == '-' as u8 {
                        -secs
                    } else {
                        secs
                    },
                    i + 9,
                ),
            )
        }),
{
    lemma_two_digits(b, i + 1);
    lemma_two_digits(b, i + 4);
    lemma_two_digits(b, i + 7);
}

proof fn lemma_letters(b: Seq<u8>, i: int, j: int)
    requires
        0 <= i <= j <= b.len(),
        forall|k: int| i <= k < j ==> is_alpha(#[trigger] b[k]),
        j < b.len() ==> !is_alpha(b[j]) && b[j] != '_' as u8,
    ensures
        letters_end(b, i) == j,
    decreases j - i,
{
    if i < j {
        lemma_letters(b, i + 1, j);
    }
}

/// Whether a switch stands at `i`: a month, the week in it, a day of the week, and an hour.
pub open spec fn switch_at(b: Seq<u8>, i: int) -> bool {
    &&& i + 8 <= b.len()
    &&& b[i] == 'M' as u8 && b[i + 2] == '.' as u8 && b[i + 4] == '.' as u8 && b[i + 6] == '/' as u8
    &&& '1' as u8 <= b[i + 1] <= '9' as u8
    &&& '1' as u8 <= b[i + 3] <= '5' as u8
    &&& '0' as u8 <= b[i + 5] <= '6' as u8
    &&& is_num(b[i + 7])
}

/// The switch that stands there.
pub open spec fn switch_of(b: Seq<u8>, i: int) -> RuleTime {
    RuleTime {
        day: DayOfYear::MonthDay((b[i + 1] - 48) as u32, (b[i + 3] - 48) as u32, (b[i + 5] - 48) as u32),
        at: (3600 * (b[i + 7] - 48)) as i32,
    }
}

proof fn lemma_switch(b: Seq<u8>, i: int)
    requires
        0 <= i,
        switch_at(b, i),
        i + 8 < b.len() ==> b[i + 8] == ',' as u8,
    ensures
        rule_time(b, i) == Some((switch_of(b, i), i + 8)),
{
    lemma_one_digit(b, i + 1);
    lemma_one_digit(b, i + 3);
    lemma_one_digit(b, i + 5);
    lemma_one_digit(b, i + 7);
}

/// A rule for a zone is read: a name of `n` letters, how many hours its local time is behind UTC, a
/// name of `m` letters for its daylight saving time, which is an hour ahead of standard time, and the
/// two switches.
pub proof fn law_posix_rule_is_read(b: Seq<u8>, n: int, m: int)
    requires
        1 <= n,
        1 <= m,
        b.len() == n + 2 + m + 18,
        forall|k: int| 0 <= k < n ==> is_alpha(#[trigger] b[k]),
        b[n] == '+' as u8 || b[n] == '-' as u8,
        is_num(b[n + 1]),
        forall|k: int| n + 2 <= k < n + 2 + m ==> is_alpha(#[trigger] b[k]),
        b[n + 2 + m] == ',' as u8,
        switch_at(b, n + 2 + m + 1),
        b[n + 2 + m + 9] == ',' as u8,
        switch_at(b, n + 2 + m + 10),
    ensures
        ({
            let hours = if b[n] == '+' as u8 {
                -(b[n + 1] - 48)
            } else {
                b[n + 1] - 48
            };
            posix(b) == Some(
                PosixRule {
                    std_off: (3600 * hours) as i32,
                    dst: Some(
                        (
                            (3600 * hours + 3600) as i32,
                            switch_of(b, n + 2 + m + 1),
                            switch_of(b, n + 2 + m + 10),
                        ),
                    ),
                },
            )
        }),
{
    let k = n + 2 + m;
    lemma_name(b, 0, n);
    lemma_name(b, n + 2, k);
    assert(is_alpha(b[n + 2]));
    lemma_hours(b, n);
    lemma_switches(b, k);
    let off = if b[n] == '+' as u8 {
        3600 * (b[n + 1] - 48)
    } else {
        -(3600 * (b[n + 1] - 48))
    };
    assert(signed_secs(b, n) == Some((off, n + 2)));
    assert(dst_offset(b, k, -off) == Some((-off + 3600, k)));
}

proof fn lemma_name(b: Seq<u8>, i: int, j: int)
    requires
        0 <= i < j < b.len(),
        forall|k: int| i <= k < j ==> is_alpha(#[trigger] b[k]),
        !is_alpha(b[j]) && b[j] != '_' as u8,
    ensures
        name_end(b, i) == Some(j),
{
    assert(is_alpha(b[i]));
    lemma_letters(b, i, j);
}

proof fn lemma_hours(b: Seq<u8>, i: int)
    requires
        0 <= i,
        i + 2 < b.len(),
        b[i] == '+' as u8 || b[i] == '-' as u8,
        is_num(b[i + 1]),
        is_alpha(b[i + 2]),
    ensures
        signed_secs(b, i) == Some(
            (
                if b[i] == '+' as u8 {
                    3600 * (b[i + 1] - 48)
                } else {
                    -(3600 * (b[i + 1] - 48))
                },
                i + 2,
            ),
        ),
{
    lemma_one_digit(b, i + 1);
}

proof fn lemma_switches(b: Seq<u8>, k: int)
    requires
        0 <= k,
        b.len() == k + 18,
        b[k] == ',' as u8,
        switch_at(b, k + 1),
        b[k + 9] == ',' as u8,
        switch_at(b, k + 10),
    ensures
        switches(b, k) == Some((switch_of(b, k + 1), switch_of(b, k + 10))),
{
    lemma_switch(b, k + 1);
    lemma_switch(b, k + 10);
}

/// Where no switches are written, daylight saving time goes from two in the morning of the last Sunday
/// in March to two in the morning of the first Sunday in November; and a switch for which no hour is
/// written is at two in the morning.
pub proof fn law_switches_that_are_not_written(b: Seq<u8>, i: int)
    requires
        0 <= i,
    ensures
        i >= b.len() ==> switches(b, i) == Some(
            (
                RuleTime { day: DayOfYear::MonthDay(3, 5, 0), at: 7200 },
                RuleTime { day: DayOfYear::MonthDay(11, 1, 0), at: 7200 },
            ),
        ),
        rule_day(b, i) matches Some((day, j)) ==> (j >= b.len() || b[j] != '/' as u8 ==> rule_time(b, i)
            == Some((RuleTime { day, at: 7200 }, j))),
{
}

/// A block of the database has a header of 44 bytes, then the moments and a byte for each, six bytes
/// for each kind, the names, and what is not read here.
pub proof fn law_database_blocks(c: Counts, start: int)
    ensures
        c.kinds_at(start, 4) == start + 44 + 4 * c.time,
        c.kinds_at(start, 8) == start + 44 + 8 * c.time,
        c.types_at(start, 4) == start + 44 + 5 * c.time,
        c.types_at(start, 8) == start + 44 + 9 * c.time,
        c.end(start, 4) == start + 44 + 5 * c.time + 6 * c.kind + c.chars + 8 * c.leap + c.isstd + c.isut,
        c.end(start, 8) == start + 44 + 9 * c.time + 6 * c.kind + c.chars + 12 * c.leap + c.isstd + c.isut,
{
}

/// Before the first moment the zone is that of the first kind without daylight saving time.
pub proof fn law_earliest_time_is_standard(types: Seq<(i32, bool)>, i: int)
    requires
        0 <= i <= types.len(),
    ensures
        i <= first_plain(types, i) <= types.len(),
        first_plain(types, i) < types.len() ==> !types[first_plain(types, i)].1,
        forall|k: int| i <= k < first_plain(types, i) ==> (#[trigger] types[k]).1,
    decreases types.len() - i,
{
    if i < types.len() && types[i].1 {
        law_earliest_time_is_standard(types, i + 1);
    }
}

/// The day of a switch is that of a week in a month: the month, with one digit or two, the week from 1
/// to 5, and the day of the week from 0 for Sunday.
pub proof fn law_days_of_months_are_read(b: Seq<u8>, i: int, two: bool)
    requires
        0 <= i,
        ({
            let k = if two {
                i + 3
            } else {
                i + 2
            };
            &&& k + 4 <= b.len()
            &&& b[i] == 'M' as u8
            &&& is_num(b[i + 1])
            &&& two ==> is_num(b[i + 2])
            &&& b[k] == '.' as u8 && is_num(b[k + 1]) && b[k + 2] == '.' as u8 && is_num(b[k + 3])
            &&& k + 4 < b.len() ==> !is_num(b[k + 4])
        }),
    ensures
        ({
            let k = if two {
                i + 3
            } else {
                i + 2
            };
            let m = if two {
                10 * (b[i + 1] - 48) + (b[i + 2] - 48)
            } else {
                b[i + 1] - 48
            };
            let (w, d) = (b[k + 1] - 48, b[k + 3] - 48);
            rule_day(b, i) == (if 1 <= m <= 12 && 1 <= w <= 5 && d <= 6 {
                Some((DayOfYear::MonthDay(m as u32, w as u32, d as u32), k + 4))
            } else {
                None
            })
        }),
{
    let k = if two {
        i + 3
    } else {
        i + 2
    };
    if two {
        lemma_two_digits(b, i + 1);
    } else {
        lemma_one_digit(b, i + 1);
    }
    lemma_one_digit(b, k + 1);
    lemma_one_digit(b, k + 3);
}

} // verus!
