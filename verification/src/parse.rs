//! Times as people write them: lengths (`90`, `25m`, `1h30m`, `2d`) and times of day (`14:30`, or
//! `14 30t` with a `t` at the end).
use crate::strings;
use crate::strings::{chars_of, digit, lower, parse_u32, split_fields, trim};
use vstd::prelude::*;

verus! {

/// Whether `c` is white space in ASCII.
pub open spec fn is_ascii_space(c: char) -> bool {
    c == '\t' || c == '\n' || c == '\x0C' || c == '\r' || c == ' '
}

/// How many seconds the unit `c` stands for.
pub open spec fn unit_secs(c: char) -> Option<nat> {
    let u = strings::ascii_lower(c);
    if u == 's' {
        Some(1)
    } else if u == 'm' {
        Some(60)
    } else if u == 'h' {
        Some(3600)
    } else if u == 'd' {
        Some(86_400)
    } else {
        None
    }
}

/// How many digits `s` begins with.
pub open spec fn digit_run(s: Seq<char>) -> nat
    decreases s.len(),
{
    if s.len() > 0 && strings::is_digit(s[0]) {
        1 + digit_run(s.subrange(1, s.len() as int))
    } else {
        0
    }
}

/// The seconds that `s` writes as numbers with units, with white space between them. A number at
/// the end may go without a unit and counts seconds.
pub open spec fn compound(s: Seq<char>) -> Option<nat>
    decreases s.len(),
{
    let k = digit_run(s);
    if s.len() == 0 {
        Some(0)
    } else if is_ascii_space(s[0]) {
        compound(s.subrange(1, s.len() as int))
    } else if k == 0 {
        None
    } else if k >= s.len() {
        Some(strings::decimal(s))
    } else {
        match (unit_secs(s[k as int]), compound(s.subrange(k as int + 1, s.len() as int))) {
            (Some(u), Some(rest)) => Some(
                strings::decimal(s.subrange(0, k as int)) * u + rest,
            ),
            _ => None,
        }
    }
}

/// The length in seconds that `input` writes.
pub open spec fn duration(input: Seq<char>) -> Option<u32> {
    let t = strings::trimmed(input);
    if t.len() == 0 {
        None
    } else {
        match strings::unsigned_upto(t, u32::MAX as nat) {
            Some(n) => Some(n as u32),
            None => match compound(t) {
                Some(n) => if n <= u32::MAX {
                    Some(n as u32)
                } else {
                    None
                },
                None => None,
            },
        }
    }
}

/// Whether the written time of day ends in `t`.
pub open spec fn has_t(t: Seq<char>) -> bool {
    t.len() > 0 && (t.last() == 't' || t.last() == 'T')
}

/// The number in part `i`, 0 where there is no such part.
pub open spec fn part_value(parts: Seq<Seq<char>>, i: int) -> Option<nat> {
    if i < parts.len() {
        strings::unsigned_upto(parts[i], u32::MAX as nat)
    } else {
        Some(0)
    }
}

/// The time of day that `input` writes, as hours, minutes and seconds.
pub open spec fn absolute(input: Seq<char>) -> Option<(u32, u32, u32)> {
    let t = strings::trimmed(input);
    let body = if has_t(t) {
        t.drop_last()
    } else {
        t
    };
    let parts = strings::fields(body, seq![':', ' ']);
    if parts.len() == 0 || parts.len() > 3 || (!has_t(t) && parts.len() < 2) {
        None
    } else {
        match (part_value(parts, 0), part_value(parts, 1), part_value(parts, 2)) {
            (Some(h), Some(m), Some(s)) => if h <= 23 && m <= 59 && s <= 59 {
                Some((h as u32, m as u32, s as u32))
            } else {
                None
            },
            _ => None,
        }
    }
}

/// Seconds since midnight.
pub open spec fn second_of_day(t: (u32, u32, u32)) -> int {
    t.0 * 3600 + t.1 * 60 + t.2
}

/// Seconds from `now` until the time of day `target`: at least one, and at most a day.
pub open spec fn until(target: (u32, u32, u32), now: (u32, u32, u32)) -> int {
    let diff = (second_of_day(target) - second_of_day(now)) % 86_400;
    if diff == 0 {
        86_400
    } else {
        diff
    }
}

proof fn lemma_digit_run(s: Seq<char>)
    ensures
        digit_run(s) <= s.len(),
        forall|i: int| 0 <= i < digit_run(s) ==> strings::is_digit(#[trigger] s[i]),
        digit_run(s) < s.len() ==> !strings::is_digit(s[digit_run(s) as int]),
    decreases s.len(),
{
    if s.len() > 0 && strings::is_digit(s[0]) {
        let t = s.subrange(1, s.len() as int);
        lemma_digit_run(t);
        assert forall|i: int| 0 <= i < digit_run(s) implies strings::is_digit(
            #[trigger] s[i],
        ) by {
            if i > 0 {
                assert(t[i - 1] == s[i]);
            }
        }
        if digit_run(s) < s.len() {
            assert(t[digit_run(t) as int] == s[digit_run(s) as int]);
        }
    }
}

/// The run of digits that ends where the first other character stands is the whole run.
proof fn lemma_digit_run_is(s: Seq<char>, k: int)
    requires
        0 <= k <= s.len(),
        forall|i: int| 0 <= i < k ==> strings::is_digit(#[trigger] s[i]),
        k < s.len() ==> !strings::is_digit(s[k]),
    ensures
        digit_run(s) == k,
    decreases s.len(),
{
    if k > 0 {
        let t = s.subrange(1, s.len() as int);
        assert forall|i: int| 0 <= i < k - 1 implies strings::is_digit(#[trigger] t[i]) by {
            assert(t[i] == s[i + 1]);
        }
        assert(strings::is_digit(s[0]));
        lemma_digit_run_is(t, k - 1);
    }
}

/// The length in seconds that `input` writes: digits alone are seconds; else numbers with the
/// units `d`, `h`, `m` and `s` in either case, a number at the end without a unit being seconds.
/// `None` where it is neither, or over what `u32` holds.
pub fn parse_duration(input: &str) -> (r: Option<u32>)
    ensures
        r == duration(input@),
{
    parse_duration_chars(&chars_of(input))
}

/// The length in seconds that the characters write.
pub fn parse_duration_chars(input: &[char]) -> (r: Option<u32>)
    ensures
        r == duration(input@),
{
    let s = trim(input);
    if s.len() == 0 {
        return None;
    }
    match parse_u32(s) {
        Some(secs) => {
            return Some(secs);
        },
        None => {},
    }
    let mut total: u32 = 0;
    let mut i: usize = 0;
    assert(s@.subrange(0, s.len() as int) =~= s@);
    while i < s.len()
        invariant
            i <= s.len(),
            s@ == strings::trimmed(input@),
            s.len() > 0,
            strings::unsigned_upto(s@, u32::MAX as nat) is None,
            match compound(s@.subrange(i as int, s.len() as int)) {
                Some(rest) => compound(s@) == Some((total + rest) as nat),
                None => compound(s@) is None,
            },
        decreases s.len() - i,
    {
        let ghost t = s@.subrange(i as int, s.len() as int);
        let c: char = s[i];
        if c == '\t' || c == '\n' || c == '\x0C' || c == '\r' || c == ' ' {
            assert(t.subrange(1, t.len() as int) =~= s@.subrange(i + 1, s.len() as int));
            i = i + 1;
            continue ;
        }
        if !digit(c) {
            return None;
        }
        let start: usize = i;
        while i < s.len() && digit(s[i])
            invariant
                start <= i <= s.len(),
                forall|j: int| start <= j < i ==> strings::is_digit(#[trigger] s@[j]),
            decreases s.len() - i,
        {
            i = i + 1;
        }
        let ghost k = i - start;
        proof {
            assert forall|j: int| 0 <= j < k implies strings::is_digit(#[trigger] t[j]) by {
                assert(t[j] == s@[start + j]);
            }
            lemma_digit_run_is(t, k);
            assert(t.subrange(0, k) =~= s@.subrange(start as int, i as int));
            assert(strings::all_digits(t.subrange(0, k)));
            assert(t.subrange(0, t.len() as int) =~= t);
            assert(t[0] != '+');
        }
        let num: u32 = match parse_u32(&s[start..i]) {
            Some(n) => n,
            None => {
                assert(strings::decimal(t.subrange(0, k)) > u32::MAX);
                proof {
                    lemma_big_number(t, k);
                }
                return None;
            },
        };
        let mult: u32 = if i == s.len() {
            1
        } else {
            match lower(s[i]) {
                's' => 1,
                'm' => 60,
                'h' => 3600,
                'd' => 86_400,
                _ => {
                    return None;
                },
            }
        };
        let ghost rest = if i == s.len() {
            Some(0nat)
        } else {
            compound(s@.subrange(i + 1, s.len() as int))
        };
        proof {
            if i < s.len() {
                assert(t.subrange(k + 1, t.len() as int) =~= s@.subrange(i + 1, s.len() as int));
            }
            assert(match rest {
                Some(r) => compound(t) == Some((num * mult + r) as nat),
                None => compound(t) is None,
            });
        }
        let add: u32 = match num.checked_mul(mult) {
            Some(a) => a,
            None => {
                return None;
            },
        };
        total = match total.checked_add(add) {
            Some(a) => a,
            None => {
                return None;
            },
        };
        if i < s.len() {
            i = i + 1;
        } else {
            assert(s@.subrange(i as int, s.len() as int) =~= Seq::<char>::empty());
            assert(compound(Seq::<char>::empty()) == Some(0nat));
        }
    }
    assert(s@.subrange(i as int, s.len() as int) =~= Seq::<char>::empty());
    Some(total)
}

/// A number over the limit makes the whole length one.
proof fn lemma_big_number(t: Seq<char>, k: int)
    requires
        0 < k <= t.len(),
        !is_ascii_space(t[0]),
        digit_run(t) == k,
        strings::decimal(t.subrange(0, k)) > u32::MAX,
    ensures
        compound(t) matches Some(n) ==> n > u32::MAX,
{
    assert(t.subrange(0, t.len() as int) =~= t);
    if k < t.len() {
        let d = strings::decimal(t.subrange(0, k));
        match unit_secs(t[k]) {
            Some(u) => {
                assert(d * u >= d) by (nonlinear_arith)
                    requires
                        u >= 1,
                ;
            },
            None => {},
        }
    }
}

/// The time of day that `input` writes, as hours, minutes and seconds: `14:30`, `14:30:45`, and
/// with a `t` at the end also `14 30t` and `14t`. Without the `t` there are at least two parts, so
/// that a bare number stays a length.
pub fn parse_absolute(input: &str) -> (r: Option<(u32, u32, u32)>)
    ensures
        r == absolute(input@),
{
    let chars = chars_of(input);
    let t = trim(&chars);
    let explicit = t.len() > 0 && (t[t.len() - 1] == 't' || t[t.len() - 1] == 'T');
    let body = if explicit {
        &t[0..t.len() - 1]
    } else {
        t
    };
    let seps: [char; 2] = [':', ' '];
    let parts = split_fields(body, &seps);
    proof {
        assert(seps@ =~= seq![':', ' ']);
        if explicit {
            assert(t@.subrange(0, t.len() - 1) =~= t@.drop_last());
        }
        assert(strings::rows(parts@).len() == parts@.len());
    }
    if parts.len() == 0 || parts.len() > 3 {
        return None;
    }
    if !explicit && parts.len() < 2 {
        return None;
    }
    let ghost p = strings::rows(parts@);
    let h: u32 = match parse_u32(&parts[0]) {
        Some(n) => n,
        None => {
            assert(part_value(p, 0) is None);
            return None;
        },
    };
    let m: u32 = if parts.len() > 1 {
        match parse_u32(&parts[1]) {
            Some(n) => n,
            None => {
                assert(part_value(p, 1) is None);
                return None;
            },
        }
    } else {
        0
    };
    let s: u32 = if parts.len() > 2 {
        match parse_u32(&parts[2]) {
            Some(n) => n,
            None => {
                assert(part_value(p, 2) is None);
                return None;
            },
        }
    } else {
        0
    };
    assert(part_value(p, 0) == Some(h as nat) && part_value(p, 1) == Some(m as nat) && part_value(
        p,
        2,
    ) == Some(s as nat));
    if h > 23 || m > 59 || s > 59 {
        return None;
    }
    Some((h, m, s))
}

/// Seconds from `now` until the time of day `target`, tomorrow where it has passed. A time that is
/// now is a whole day away: a countdown of no seconds would make no sense.
pub fn secs_until(target: (u32, u32, u32), now: (u32, u32, u32)) -> (r: u32)
    requires
        86_400 + second_of_day(target) <= u32::MAX,
        second_of_day(now) <= 86_400 + second_of_day(target),
    ensures
        r == until(target, now),
{
    let at: u32 = target.0 * 3600 + target.1 * 60 + target.2;
    let from: u32 = now.0 * 3600 + now.1 * 60 + now.2;
    let diff: u32 = (86_400 + at - from) % 86_400;
    if diff == 0 {
        86_400
    } else {
        diff
    }
}

/// A wait of that many seconds, at least one and at most a day, ends at the time of day that was
/// asked for.
pub proof fn law_secs_until_arrives(target: (u32, u32, u32), now: (u32, u32, u32))
    requires
        target.0 <= 23 && target.1 <= 59 && target.2 <= 59,
        now.0 <= 23 && now.1 <= 59 && now.2 <= 59,
    ensures
        1 <= until(target, now) <= 86_400,
        (second_of_day(now) + until(target, now)) % 86_400 == second_of_day(target),
{
    lemma_day_distance(second_of_day(target), second_of_day(now));
}

proof fn lemma_day_distance(a: int, b: int)
    requires
        0 <= a < 86_400,
        0 <= b < 86_400,
    ensures
        (a - b) % 86_400 == (if a < b {
            a - b + 86_400
        } else {
            a - b
        }),
        a % 86_400 == a,
        (a + 86_400) % 86_400 == a,
{
}

/// What ends in a character that is neither white space, a digit nor a unit is no length.
proof fn lemma_bad_end(s: Seq<char>)
    requires
        s.len() > 0,
        !is_ascii_space(s.last()),
        !strings::is_digit(s.last()),
        unit_secs(s.last()) is None,
    ensures
        compound(s) is None,
    decreases s.len(),
{
    lemma_digit_run(s);
    let k = digit_run(s);
    if is_ascii_space(s[0]) {
        let t = s.subrange(1, s.len() as int);
        assert(t.last() == s.last());
        lemma_bad_end(t);
    } else if k > 0 {
        if k >= s.len() {
            assert(strings::is_digit(s[s.len() - 1]));
        } else if k + 1 < s.len() {
            let t = s.subrange(k as int + 1, s.len() as int);
            assert(t.last() == s.last());
            lemma_bad_end(t);
        }
    }
}

/// A time of day with a `t` at its end is never a length too.
pub proof fn law_t_form_is_no_duration(input: Seq<char>)
    requires
        has_t(strings::trimmed(input)),
    ensures
        duration(input) is None,
{
    let t = strings::trimmed(input);
    lemma_bad_end(t);
    if strings::unsigned(t) is Some {
        let body = if t[0] == '+' {
            t.subrange(1, t.len() as int)
        } else {
            t
        };
        assert(body.last() == t.last());
        assert(strings::is_digit(body[body.len() - 1]));
    }
}

/// A number alone is a length and never a time of day, so no text of digits means both.
pub proof fn law_bare_number_is_seconds(n: u32)
    ensures
        duration(strings::digits(n as nat)) == Some(n),
        absolute(strings::digits(n as nat)) is None,
{
    let s = strings::digits(n as nat);
    strings::lemma_digits(n as nat);
    strings::law_number_roundtrip(n as nat);
    assert(strings::is_digit(s[0]));
    assert(strings::is_digit(s[s.len() - 1]));
    assert(strings::trim_start(s) == s);
    assert(strings::trim_end(s) == s);
    strings::lemma_one_piece(s, seq![':', ' ']);
    reveal(Seq::filter);
    let p = strings::pieces(s, seq![':', ' ']);
    assert(p.drop_last() =~= Seq::<Seq<char>>::empty());
    assert(p.drop_last().filter(|q: Seq<char>| q.len() > 0).len() == 0);
}

/// A length that ends in a unit, and one after it, are together the sum of the two.
proof fn lemma_compound_joined(s: Seq<char>, r: Seq<char>)
    requires
        s.len() > 0 ==> unit_secs(s.last()) is Some,
        compound(s) is Some,
        compound(r) is Some,
    ensures
        compound(s + r) == Some((compound(s)->0 + compound(r)->0) as nat),
    decreases s.len(),
{
    let all = s + r;
    if s.len() == 0 {
        assert(all =~= r);
    } else if is_ascii_space(s[0]) {
        let t = s.subrange(1, s.len() as int);
        assert(s.len() > 1);
        assert(t.last() == s.last());
        lemma_compound_joined(t, r);
        assert(all.subrange(1, all.len() as int) =~= t + r);
        assert(all[0] == s[0]);
    } else {
        lemma_digit_run(s);
        let k = digit_run(s) as int;
        if k >= s.len() {
            assert(strings::is_digit(s[s.len() - 1]));
        }
        let t = s.subrange(k + 1, s.len() as int);
        assert(t.len() > 0 ==> t.last() == s.last());
        lemma_compound_joined(t, r);
        assert forall|i: int| 0 <= i < k implies strings::is_digit(#[trigger] all[i]) by {
            assert(all[i] == s[i]);
        }
        assert(all[k] == s[k]);
        lemma_digit_run_is(all, k);
        assert(all.subrange(k + 1, all.len() as int) =~= t + r);
        assert(all.subrange(0, k) =~= s.subrange(0, k));
        assert(all[0] == s[0]);
    }
}

/// What ends in a character that is no white space keeps all behind its front when something is
/// put after it.
proof fn lemma_trim_joined(a: Seq<char>, b: Seq<char>)
    requires
        a.len() > 0,
        !strings::is_space(a.last()),
        b.len() > 0,
        !strings::is_space(b[0]),
    ensures
        strings::trimmed(a).len() > 0,
        strings::trimmed(a).last() == a.last(),
        strings::trimmed(b).len() > 0,
        strings::trimmed(b)[0] == b[0],
        strings::trimmed(a + b) == strings::trimmed(a) + strings::trimmed(b),
    decreases a.len() + b.len(),
{
    if strings::is_space(a[0]) {
        let t = a.subrange(1, a.len() as int);
        assert(a.len() > 1);
        assert(t.last() == a.last());
        lemma_trim_joined(t, b);
        assert((a + b).subrange(1, (a + b).len() as int) =~= t + b);
        assert((a + b)[0] == a[0]);
    } else if strings::is_space(b.last()) {
        let t = b.drop_last();
        assert(b.len() > 1);
        assert(t[0] == b[0]);
        lemma_trim_joined(a, t);
        assert((a + b).drop_last() =~= a + t);
        assert((a + b).last() == b.last());
        assert((a + b)[0] == a[0]);
        assert(strings::trim_start(a + b) == a + b);
        assert(strings::trim_start(a + t) == a + t);
    } else {
        assert((a + b)[0] == a[0]);
        assert((a + b).last() == b.last());
    }
}

/// A length that ends in a unit (`d`, `h`, `m` or `s`, in either case) can be carried on by any
/// other that begins with a digit: together they are the sum of the two, or no length at all where
/// that is over what `u32` holds.
pub proof fn law_lengths_add_up(a: Seq<char>, b: Seq<char>)
    requires
        a.len() > 0,
        unit_secs(a.last()) is Some,
        duration(a) is Some,
        b.len() > 0,
        strings::is_digit(b[0]),
        duration(b) is Some,
    ensures
        duration(a + b) == (if duration(a)->0 + duration(b)->0 <= u32::MAX {
            Some((duration(a)->0 + duration(b)->0) as u32)
        } else {
            None
        }),
{
    lemma_trim_joined(a, b);
    let (ta, tb) = (strings::trimmed(a), strings::trimmed(b));
    let t = ta + tb;
    assert(t[ta.len() - 1] == ta.last());
    assert(!strings::is_digit(ta.last()) && ta.last() != '+');
    assert(strings::unsigned(ta) is None) by {
        let body = if ta[0] == '+' {
            ta.subrange(1, ta.len() as int)
        } else {
            ta
        };
        if body.len() > 0 {
            assert(body[body.len() - 1] == ta.last());
        }
    }
    assert(strings::unsigned(t) is None) by {
        let plus = t[0] == '+';
        let body = if plus {
            t.subrange(1, t.len() as int)
        } else {
            t
        };
        assert(t[0] == ta[0]);
        let at = ta.len() - 1 - (if plus {
            1int
        } else {
            0int
        });
        assert(body[at] == ta.last());
    }
    assert(compound(tb) == Some(duration(b)->0 as nat)) by {
        if strings::unsigned(tb) is Some {
            lemma_digit_run_is(tb, tb.len() as int);
        }
    }
    lemma_compound_joined(ta, tb);
}

/// The first piece holds all that stands before the first separator.
proof fn lemma_first_piece(s: Seq<char>, seps: Seq<char>, m: int)
    requires
        0 <= m <= s.len(),
        forall|i: int| 0 <= i < m ==> !seps.contains(#[trigger] s[i]),
    ensures
        strings::pieces(s, seps).len() > 0,
        strings::pieces(s, seps)[0].len() >= m,
        forall|i: int| 0 <= i < m ==> #[trigger] strings::pieces(s, seps)[0][i] == s[i],
    decreases s.len(),
{
    if m == s.len() {
        assert(strings::free_of(s, seps));
        strings::lemma_one_piece(s, seps);
    } else {
        let f = s.drop_last();
        assert forall|i: int| 0 <= i < m implies !seps.contains(#[trigger] f[i]) by {
            assert(f[i] == s[i]);
        }
        lemma_first_piece(f, seps, m);
        let p = strings::pieces(f, seps);
        assert forall|i: int| 0 <= i < m implies #[trigger] strings::pieces(s, seps)[0][i]
            == s[i] by {
            assert(p[0][i] == f[i]);
        }
    }
}

/// A first piece that is not empty is the first field.
proof fn lemma_first_field(p: Seq<Seq<char>>)
    requires
        p.len() > 0,
        p[0].len() > 0,
    ensures
        p.filter(|q: Seq<char>| q.len() > 0).len() > 0,
        p.filter(|q: Seq<char>| q.len() > 0)[0] == p[0],
    decreases p.len(),
{
    reveal(Seq::filter);
    if p.len() == 1 {
        assert(p.drop_last() =~= Seq::<Seq<char>>::empty());
        assert(p.drop_last().filter(|q: Seq<char>| q.len() > 0).len() == 0);
    } else {
        lemma_first_field(p.drop_last());
    }
}

/// Text without the white space around it does not begin with white space.
proof fn lemma_trimmed_front(s: Seq<char>)
    ensures
        strings::trimmed(s).len() > 0 ==> !strings::is_space(strings::trimmed(s)[0]),
    decreases s.len(),
{
    if s.len() > 0 {
        if strings::is_space(s[0]) {
            lemma_trimmed_front(s.subrange(1, s.len() as int));
        } else if strings::is_space(s.last()) {
            lemma_trimmed_front(s.drop_last());
        }
    }
}

/// What is a time of day, in whichever form, is one that a clock shows, and never a length too: no
/// text means both.
pub proof fn law_time_of_day_is_no_duration(input: Seq<char>)
    requires
        absolute(input) is Some,
    ensures
        absolute(input) matches Some((h, m, s)) && h <= 23 && m <= 59 && s <= 59,
        duration(input) is None,
{
    let t = strings::trimmed(input);
    if has_t(t) {
        law_t_form_is_no_duration(input);
    } else {
        let seps = seq![':', ' '];
        let parts = strings::fields(t, seps);
        assert(seps[0] == ':' && seps[1] == ' ');
        if t.len() == 0 || strings::unsigned(t) is Some {
            assert forall|i: int| 0 <= i < t.len() implies !seps.contains(#[trigger] t[i]) by {
                if i > 0 && t[0] == '+' {
                    assert(t.subrange(1, t.len() as int)[i - 1] == t[i]);
                }
            }
            strings::lemma_one_piece(t, seps);
            reveal(Seq::filter);
            let p = strings::pieces(t, seps);
            assert(p.drop_last() =~= Seq::<Seq<char>>::empty());
            assert(p.drop_last().filter(|q: Seq<char>| q.len() > 0).len() == 0);
        } else {
            lemma_trimmed_front(input);
            lemma_digit_run(t);
            let k = digit_run(t) as int;
            if 0 < k < t.len() && !seps.contains(t[k]) {
                lemma_first_piece(t, seps, k + 1);
                let p = strings::pieces(t, seps);
                lemma_first_field(p);
                assert(parts[0] == p[0]);
                assert(part_value(parts, 0) is Some);
                assert(p[0][0] == t[0] && p[0][k] == t[k]);
                assert(strings::is_digit(t[0]));
            }
            assert(unit_secs(':') is None && unit_secs(' ') is None);
            assert(compound(t) is None);
        }
    }
}

proof fn lemma_digits_before(d: Seq<char>, u: char)
    requires
        strings::all_digits(d),
        !strings::is_digit(u),
    ensures
        digit_run(d.push(u)) == d.len(),
    decreases d.len(),
{
    let s = d.push(u);
    if d.len() > 0 {
        assert(strings::is_digit(d[0]));
        let rest = d.subrange(1, d.len() as int);
        assert forall|i: int| 0 <= i < rest.len() implies strings::is_digit(#[trigger] rest[i]) by {
            assert(rest[i] == d[i + 1]);
        }
        lemma_digits_before(rest, u);
        assert(s.subrange(1, s.len() as int) =~= rest.push(u));
    }
}

/// A number with a unit is that many seconds, minutes, hours or days.
pub proof fn law_units(n: u32, u: char)
    requires
        u == 's' || u == 'S' || u == 'm' || u == 'M' || u == 'h' || u == 'H' || u == 'd' || u == 'D',
    ensures
        ({
            let each: int = if u == 's' || u == 'S' {
                1
            } else if u == 'm' || u == 'M' {
                60
            } else if u == 'h' || u == 'H' {
                60int * 60
            } else {
                24int * 60 * 60
            };
            duration(strings::digits(n as nat).push(u)) == (if n * each <= u32::MAX {
                Some((n * each) as u32)
            } else {
                None
            })
        }),
{
    let d = strings::digits(n as nat);
    let s = d.push(u);
    strings::lemma_digits(n as nat);
    strings::law_number_roundtrip(n as nat);
    assert(strings::is_digit(d[0]));
    assert(strings::trim_start(s) == s);
    assert(strings::trim_end(s) == s);
    lemma_digits_before(d, u);
    assert(s[d.len() as int] == u);
    assert(s.subrange(0, d.len() as int) =~= d);
    assert(s.subrange(d.len() as int + 1, s.len() as int) =~= Seq::<char>::empty());
    assert(compound(Seq::<char>::empty()) == Some(0nat));
    assert(!strings::is_digit(s[s.len() - 1]));
    assert(s[0] != '+');
    assert(!strings::all_digits(s));
    assert(n * 1 == n as int);
}

} // verus!
