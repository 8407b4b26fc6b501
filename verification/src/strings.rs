//! Text as sequences of characters: trimming, splitting, and decimal numbers.
use vstd::prelude::*;

verus! {

/// `String::push` appends one character to the end of the string.
pub assume_specification[ String::push ](s: &mut String, c: char)
    ensures
        final(s)@ == old(s)@.push(c),
;

/// `std::str::from_utf8` takes bytes as text: it succeeds exactly on bytes that are UTF-8, and the
/// text it gives has those bytes.
#[verifier::external_body]
pub(crate) fn utf8_text(b: &[u8]) -> (r: Option<&str>)
    ensures
        r is Some <==> vstd::utf8::valid_utf8(b@),
        r matches Some(s) ==> vstd::utf8::encode_utf8(s@) == b@,
{
    std::str::from_utf8(b).ok()
}

/// Whether `c` has the Unicode property `White_Space`.
pub open spec fn is_space(c: char) -> bool {
    ||| 0x9 <= c as u32 <= 0xD
    ||| c as u32 == 0x20
    ||| c as u32 == 0x85
    ||| c as u32 == 0xA0
    ||| c as u32 == 0x1680
    ||| 0x2000 <= c as u32 <= 0x200A
    ||| c as u32 == 0x2028
    ||| c as u32 == 0x2029
    ||| c as u32 == 0x202F
    ||| c as u32 == 0x205F
    ||| c as u32 == 0x3000
}

/// `s` without the white space at its front.
pub open spec fn trim_start(s: Seq<char>) -> Seq<char>
    decreases s.len(),
{
    if s.len() > 0 && is_space(s[0]) {
        trim_start(s.subrange(1, s.len() as int))
    } else {
        s
    }
}

/// `s` without the white space at its back.
pub open spec fn trim_end(s: Seq<char>) -> Seq<char>
    decreases s.len(),
{
    if s.len() > 0 && is_space(s.last()) {
        trim_end(s.drop_last())
    } else {
        s
    }
}

/// `s` without the white space at either end.
pub open spec fn trimmed(s: Seq<char>) -> Seq<char> {
    trim_end(trim_start(s))
}

/// Whether `c` is one of the ten ASCII digits.
pub open spec fn is_digit(c: char) -> bool {
    '0' <= c <= '9'
}

/// The value of an ASCII digit.
pub open spec fn digit_value(c: char) -> int {
    c as int - '0' as int
}

/// The ASCII digit with the value `d`.
pub open spec fn digit_char(d: int) -> char {
    ('0' as int + d) as char
}

/// Whether every character of `s` is an ASCII digit.
pub open spec fn all_digits(s: Seq<char>) -> bool {
    forall|i: int| 0 <= i < s.len() ==> is_digit(#[trigger] s[i])
}

/// The number that a run of digits writes in base ten.
pub open spec fn decimal(s: Seq<char>) -> nat
    decreases s.len(),
{
    if s.len() == 0 {
        0
    } else {
        (decimal(s.drop_last()) * 10 + digit_value(s.last())) as nat
    }
}

/// The number that `s` writes: digits, at least one, behind an optional `+`.
pub open spec fn unsigned(s: Seq<char>) -> Option<nat> {
    let body = if s.len() > 0 && s[0] == '+' {
        s.subrange(1, s.len() as int)
    } else {
        s
    };
    if body.len() > 0 && all_digits(body) {
        Some(decimal(body))
    } else {
        None
    }
}

/// `unsigned`, where the number is at most `max`.
pub open spec fn unsigned_upto(s: Seq<char>, max: nat) -> Option<nat> {
    match unsigned(s) {
        Some(n) => if n <= max {
            Some(n)
        } else {
            None
        },
        None => None,
    }
}

/// The number that `s` writes: digits, at least one, behind an optional sign.
pub open spec fn signed(s: Seq<char>) -> Option<int> {
    if s.len() > 0 && s[0] == '-' {
        let body = s.subrange(1, s.len() as int);
        if body.len() > 0 && all_digits(body) {
            Some(-(decimal(body) as int))
        } else {
            None
        }
    } else {
        match unsigned(s) {
            Some(n) => Some(n as int),
            None => None,
        }
    }
}

/// The decimal digits of `n`, without leading zeros.
pub open spec fn digits(n: nat) -> Seq<char>
    decreases n,
{
    if n < 10 {
        seq![digit_char(n as int)]
    } else {
        digits(n / 10).push(digit_char((n % 10) as int))
    }
}

/// The decimal text of an integer.
pub open spec fn int_text(n: int) -> Seq<char> {
    if n < 0 {
        seq!['-'] + digits((-n) as nat)
    } else {
        digits(n as nat)
    }
}

/// The decimal digits of `n`, with a zero in front where there is only one.
pub open spec fn two_digits(n: nat) -> Seq<char> {
    if n < 10 {
        seq!['0', digit_char(n as int)]
    } else {
        digits(n)
    }
}

/// The pieces of `s` between the characters of `seps`, empty pieces among them.
pub open spec fn pieces(s: Seq<char>, seps: Seq<char>) -> Seq<Seq<char>>
    decreases s.len(),
{
    if s.len() == 0 {
        seq![Seq::<char>::empty()]
    } else {
        let front = pieces(s.drop_last(), seps);
        if seps.contains(s.last()) {
            front.push(Seq::<char>::empty())
        } else {
            front.drop_last().push(front.last().push(s.last()))
        }
    }
}

/// The pieces of `s` between the characters of `seps`, without the empty ones.
pub open spec fn fields(s: Seq<char>, seps: Seq<char>) -> Seq<Seq<char>> {
    pieces(s, seps).filter(|p: Seq<char>| p.len() > 0)
}

/// The pieces of `s` between the characters of `seps`, without the white space around them and
/// without those that are then empty.
pub open spec fn words(s: Seq<char>, seps: Seq<char>) -> Seq<Seq<char>> {
    pieces(s, seps).map_values(|p: Seq<char>| trimmed(p)).filter(|p: Seq<char>| p.len() > 0)
}

/// The first index from `i` on at which `c` stands; the length where it does not.
pub open spec fn index_from(s: Seq<char>, c: char, i: int) -> int
    decreases s.len() - i,
{
    if i < 0 || i >= s.len() {
        s.len() as int
    } else if s[i] == c {
        i
    } else {
        index_from(s, c, i + 1)
    }
}

/// The characters that have the Unicode property `White_Space`.
pub const SPACES: [char; 25] = [
    '\u{9}',
    '\u{a}',
    '\u{b}',
    '\u{c}',
    '\u{d}',
    ' ',
    '\u{85}',
    '\u{a0}',
    '\u{1680}',
    '\u{2000}',
    '\u{2001}',
    '\u{2002}',
    '\u{2003}',
    '\u{2004}',
    '\u{2005}',
    '\u{2006}',
    '\u{2007}',
    '\u{2008}',
    '\u{2009}',
    '\u{200a}',
    '\u{2028}',
    '\u{2029}',
    '\u{202f}',
    '\u{205f}',
    '\u{3000}',
];

/// What stands between the white space.
pub open spec fn tokens(s: Seq<char>) -> Seq<Seq<char>> {
    fields(s, SPACES@)
}

/// Whether `s` begins with `front`.
pub open spec fn begins(s: Seq<char>, front: Seq<char>) -> bool {
    front.len() <= s.len() && s.subrange(0, front.len() as int) == front
}

/// What follows `front` in the first of the lines from `i` on that begins with it.
pub open spec fn line_after(lines: Seq<Seq<char>>, front: Seq<char>, i: int) -> Option<Seq<char>>
    decreases lines.len() - i,
{
    if i < 0 || i >= lines.len() {
        None
    } else if begins(lines[i], front) {
        Some(lines[i].subrange(front.len() as int, lines[i].len() as int))
    } else {
        line_after(lines, front, i + 1)
    }
}

/// The lines of a text.
pub open spec fn lines(s: Seq<char>) -> Seq<Seq<char>> {
    pieces(s, seq!['\n'])
}

/// The sequences that a vector of vectors holds.
pub open spec fn rows<T>(v: Seq<Vec<T>>) -> Seq<Seq<T>> {
    Seq::new(v.len(), |i: int| v[i]@)
}

/// The lower-case form of an ASCII letter; any other character as it is.
pub open spec fn ascii_lower(c: char) -> char {
    if 'A' <= c <= 'Z' {
        (c as int + 32) as char
    } else {
        c
    }
}

/// `s` with each ASCII letter in lower case.
pub open spec fn lowered(s: Seq<char>) -> Seq<char> {
    Seq::new(s.len(), |i: int| ascii_lower(s[i]))
}

/// Whether `part` begins at the index `at` of `s`.
pub open spec fn occurs_at(s: Seq<char>, part: Seq<char>, at: int) -> bool {
    &&& 0 <= at
    &&& at + part.len() <= s.len()
    &&& s.subrange(at, at + part.len() as int) == part
}

/// Whether `part` stands anywhere in `s`.
pub open spec fn has_part(s: Seq<char>, part: Seq<char>) -> bool {
    exists|at: int| occurs_at(s, part, at)
}

/// The characters of `s`, in order.
pub fn chars_of(s: &str) -> (r: Vec<char>)
    ensures
        r@ == s@,
{
    let mut out: Vec<char> = Vec::new();
    for c in it: s.chars()
        invariant
            out@ == s@.take(it.index() as int),
            it.seq() == s@,
    {
        out.push(c);
        assert(s@.take(it.index() as int + 1) =~= s@.take(it.index() as int).push(c));
    }
    assert(s@.take(s@.len() as int) =~= s@);
    out
}

/// Appends the characters of `v` to `out`.
pub fn push_chars(out: &mut String, v: &[char])
    ensures
        final(out)@ == old(out)@ + v@,
{
    let mut i: usize = 0;
    while i < v.len()
        invariant
            i <= v.len(),
            out@ == old(out)@ + v@.take(i as int),
        decreases v.len() - i,
    {
        out.push(v[i]);
        i = i + 1;
        assert(v@.take(i as int) =~= v@.take(i - 1).push(v@[i - 1]));
    }
    assert(v@.take(v@.len() as int) =~= v@);
}

/// The string with the characters of `v`.
pub fn string_of(v: &[char]) -> (r: String)
    ensures
        r@ == v@,
{
    let mut out = String::new();
    push_chars(&mut out, v);
    assert(Seq::<char>::empty() + v@ =~= v@);
    out
}

/// A vector with the elements of the slice.
pub fn vec_of(v: &[char]) -> (r: Vec<char>)
    ensures
        r@ == v@,
{
    let mut out: Vec<char> = Vec::new();
    let mut i: usize = 0;
    while i < v.len()
        invariant
            i <= v.len(),
            out@ == v@.take(i as int),
        decreases v.len() - i,
    {
        out.push(v[i]);
        i = i + 1;
        assert(v@.take(i as int) =~= v@.take(i - 1).push(v@[i - 1]));
    }
    assert(v@.take(v@.len() as int) =~= v@);
    out
}

/// Whether two runs of characters are the same.
pub fn same_chars(a: &[char], b: &[char]) -> (r: bool)
    ensures
        r == (a@ == b@),
{
    if a.len() != b.len() {
        return false;
    }
    let mut i: usize = 0;
    while i < a.len()
        invariant
            i <= a.len(),
            a.len() == b.len(),
            forall|j: int| 0 <= j < i ==> a@[j] == b@[j],
        decreases a.len() - i,
    {
        if a[i] != b[i] {
            return false;
        }
        i = i + 1;
    }
    assert(a@ =~= b@);
    true
}

/// Whether two strings hold the same characters.
pub fn same(a: &str, b: &str) -> (r: bool)
    ensures
        r == (a@ == b@),
{
    let x = chars_of(a);
    let y = chars_of(b);
    same_chars(&x, &y)
}

/// Whether the characters are those of the string.
pub fn chars_are(a: &[char], b: &str) -> (r: bool)
    ensures
        r == (a@ == b@),
{
    let y = chars_of(b);
    same_chars(a, &y)
}

/// Whether `c` is one of `set`.
pub fn in_set(set: &[char], c: char) -> (r: bool)
    ensures
        r == set@.contains(c),
{
    let mut i: usize = 0;
    while i < set.len()
        invariant
            i <= set.len(),
            forall|j: int| 0 <= j < i ==> set@[j] != c,
        decreases set.len() - i,
    {
        if set[i] == c {
            return true;
        }
        i = i + 1;
    }
    false
}

/// Whether `c` is white space.
pub fn space(c: char) -> (r: bool)
    ensures
        r == is_space(c),
{
    let n: u32 = c as u32;
    (0x9 <= n && n <= 0xD) || n == 0x20 || n == 0x85 || n == 0xA0 || n == 0x1680 || (0x2000 <= n
        && n <= 0x200A) || n == 0x2028 || n == 0x2029 || n == 0x202F || n == 0x205F || n == 0x3000
}

/// The part of `s` between the white space at its ends.
pub fn trim(s: &[char]) -> (r: &[char])
    ensures
        r@ == trimmed(s@),
{
    let mut lo: usize = 0;
    assert(s@.subrange(0, s.len() as int) =~= s@);
    while lo < s.len() && space(s[lo])
        invariant
            lo <= s.len(),
            trim_start(s@) == trim_start(s@.subrange(lo as int, s.len() as int)),
        decreases s.len() - lo,
    {
        proof {
            let t = s@.subrange(lo as int, s.len() as int);
            assert(t.subrange(1, t.len() as int) =~= s@.subrange(lo + 1, s.len() as int));
        }
        lo = lo + 1;
    }
    let ghost t = s@.subrange(lo as int, s.len() as int);
    assert(trim_start(s@) == t);
    let mut hi: usize = s.len();
    while hi > lo && space(s[hi - 1])
        invariant
            lo <= hi <= s.len(),
            trim_end(t) == trim_end(s@.subrange(lo as int, hi as int)),
        decreases hi,
    {
        proof {
            let u = s@.subrange(lo as int, hi as int);
            assert(u.drop_last() =~= s@.subrange(lo as int, hi - 1));
        }
        hi = hi - 1;
    }
    &s[lo..hi]
}

/// Whether `c` is an ASCII digit.
pub fn digit(c: char) -> (r: bool)
    ensures
        r == is_digit(c),
{
    '0' <= c && c <= '9'
}

/// Each digit adds to the number in front of it, so a run never falls below a part of it.
pub proof fn lemma_decimal_grows(s: Seq<char>, i: int)
    requires
        0 <= i <= s.len(),
        all_digits(s),
    ensures
        decimal(s.take(i)) <= decimal(s),
    decreases s.len() - i,
{
    if i == s.len() {
        assert(s.take(i) =~= s);
    } else {
        lemma_decimal_grows(s, i + 1);
        assert(s.take(i + 1).drop_last() =~= s.take(i));
        assert(s.take(i + 1).last() == s[i]);
        assert(is_digit(s[i]));
    }
}

/// The number that a run of digits writes; `None` where there is no digit, where something else
/// stands among them, or where the number is over `max`.
pub fn parse_digits(s: &[char], max: u64) -> (r: Option<u64>)
    ensures
        r == (if s@.len() > 0 && all_digits(s@) && decimal(s@) <= max {
            Some(decimal(s@) as u64)
        } else {
            None::<u64>
        }),
{
    if s.len() == 0 {
        return None;
    }
    let mut n: u64 = 0;
    let mut i: usize = 0;
    while i < s.len()
        invariant
            i <= s.len(),
            n == decimal(s@.take(i as int)),
            n <= max,
            forall|j: int| 0 <= j < i ==> is_digit(s@[j]),
        decreases s.len() - i,
    {
        let c: char = s[i];
        if !digit(c) {
            assert(!is_digit(s@[i as int]));
            return None;
        }
        let d: u64 = (c as u32 - '0' as u32) as u64;
        proof {
            assert(s@.take(i + 1).drop_last() =~= s@.take(i as int));
            assert(s@.take(i + 1).last() == c);
            assert(decimal(s@.take(i + 1)) == n * 10 + d);
            if all_digits(s@) {
                lemma_decimal_grows(s@, i + 1);
            }
        }
        if n > (u64::MAX - d) / 10 {
            assert(n * 10 + d > u64::MAX);
            return None;
        }
        n = n * 10 + d;
        if n > max {
            return None;
        }
        i = i + 1;
    }
    assert(s@.take(s@.len() as int) =~= s@);
    Some(n)
}

/// The number that `s` writes, where it is at most `max`.
pub fn parse_upto(s: &[char], max: u64) -> (r: Option<u64>)
    ensures
        r == (match unsigned_upto(s@, max as nat) {
            Some(n) => Some(n as u64),
            None => None::<u64>,
        }),
{
    if s.len() > 0 && s[0] == '+' {
        parse_digits(&s[1..s.len()], max)
    } else {
        parse_digits(s, max)
    }
}

/// The `u32` that `s` writes.
pub fn parse_u32(s: &[char]) -> (r: Option<u32>)
    ensures
        r == (match unsigned_upto(s@, u32::MAX as nat) {
            Some(n) => Some(n as u32),
            None => None::<u32>,
        }),
{
    match parse_upto(s, u32::MAX as u64) {
        Some(n) => Some(n as u32),
        None => None,
    }
}

/// The `i32` that `s` writes.
pub fn parse_i32(s: &[char]) -> (r: Option<i32>)
    ensures
        r == (match signed(s@) {
            Some(n) => if i32::MIN <= n <= i32::MAX {
                Some(n as i32)
            } else {
                None::<i32>
            },
            None => None::<i32>,
        }),
{
    if s.len() > 0 && s[0] == '-' {
        match parse_digits(&s[1..s.len()], 0x8000_0000) {
            Some(n) => Some((-(n as i64)) as i32),
            None => None,
        }
    } else {
        match parse_upto(s, 0x7fff_ffff) {
            Some(n) => Some(n as i32),
            None => None,
        }
    }
}

/// The digits of a number, as a vector.
pub fn digits_vec(n: u64) -> (r: Vec<char>)
    ensures
        r@ == digits(n as nat),
    decreases n,
{
    let d: u8 = (n % 10) as u8;
    let c: char = (48u8 + d) as char;
    assert(c == digit_char((n % 10) as int));
    if n < 10 {
        let mut out: Vec<char> = Vec::new();
        out.push(c);
        assert(out@ =~= digits(n as nat));
        out
    } else {
        let mut out = digits_vec(n / 10);
        out.push(c);
        out
    }
}

/// Appends the decimal digits of `n`.
pub fn push_number(out: &mut String, n: u64)
    ensures
        final(out)@ == old(out)@ + digits(n as nat),
{
    let d = digits_vec(n);
    push_chars(out, &d);
}

/// Appends the decimal text of `n`.
pub fn push_int(out: &mut String, n: i64)
    ensures
        final(out)@ == old(out)@ + int_text(n as int),
{
    if n < 0 {
        out.push('-');
        let m: u64 = (-(n as i128)) as u64;
        push_number(out, m);
        assert(old(out)@.push('-') + digits(m as nat) =~= old(out)@ + (seq!['-'] + digits(
            m as nat,
        )));
    } else {
        push_number(out, n as u64);
    }
}

/// Appends the decimal digits of `n`, at least two of them.
pub fn push_two(out: &mut String, n: u64)
    ensures
        final(out)@ == old(out)@ + two_digits(n as nat),
{
    if n < 10 {
        out.push('0');
        push_number(out, n);
        assert(old(out)@.push('0') + digits(n as nat) =~= old(out)@ + two_digits(n as nat));
    } else {
        push_number(out, n);
    }
}

/// What `digits` writes, `decimal` reads back: the digits of `n` are a run of digits that
/// writes `n`.
pub proof fn lemma_digits(n: nat)
    ensures
        digits(n).len() > 0,
        all_digits(digits(n)),
        decimal(digits(n)) == n,
    decreases n,
{
    if n < 10 {
        let s = digits(n);
        assert(s.drop_last() =~= Seq::<char>::empty());
        assert(decimal(s.drop_last()) == 0);
        assert(s.last() == digit_char(n as int));
    } else {
        lemma_digits(n / 10);
        let s = digits(n);
        assert(s.drop_last() =~= digits(n / 10));
        assert(s.last() == digit_char((n % 10) as int));
        assert(is_digit(digit_char((n % 10) as int)));
    }
}

/// The digits of a number read back as that number.
pub proof fn law_number_roundtrip(n: nat)
    ensures
        unsigned(digits(n)) == Some(n),
{
    lemma_digits(n);
    assert(is_digit(digits(n)[0]));
}

/// The decimal text of an integer reads back as that integer.
pub proof fn law_int_roundtrip(n: int)
    ensures
        signed(int_text(n)) == Some(n),
{
    if n < 0 {
        lemma_digits((-n) as nat);
        let t = int_text(n);
        assert(t.subrange(1, t.len() as int) =~= digits((-n) as nat));
        assert(t[0] == '-');
    } else {
        lemma_digits(n as nat);
        law_number_roundtrip(n as nat);
        assert(is_digit(digits(n as nat)[0]));
    }
}

/// There is always a last piece.
pub proof fn lemma_pieces_nonempty(s: Seq<char>, seps: Seq<char>)
    ensures
        pieces(s, seps).len() > 0,
    decreases s.len(),
{
    if s.len() > 0 {
        lemma_pieces_nonempty(s.drop_last(), seps);
    }
}

/// The parts with `sep` between them.
pub open spec fn joined(parts: Seq<Seq<char>>, sep: char) -> Seq<char>
    decreases parts.len(),
{
    if parts.len() == 0 {
        Seq::empty()
    } else if parts.len() == 1 {
        parts[0]
    } else {
        joined(parts.drop_last(), sep).push(sep) + parts.last()
    }
}

/// Whether none of the characters of `seps` stands in `s`.
pub open spec fn free_of(s: Seq<char>, seps: Seq<char>) -> bool {
    forall|i: int| 0 <= i < s.len() ==> !seps.contains(#[trigger] s[i])
}

/// What stands behind the last separator is the last piece.
pub proof fn lemma_pieces_append(s: Seq<char>, sep: char, t: Seq<char>, seps: Seq<char>)
    requires
        seps.contains(sep),
        free_of(t, seps),
    ensures
        pieces(s.push(sep) + t, seps) == pieces(s, seps).push(t),
    decreases t.len(),
{
    let all = s.push(sep) + t;
    if t.len() == 0 {
        assert(all =~= s.push(sep));
        assert(all.drop_last() =~= s);
        assert(t =~= Seq::<char>::empty());
    } else {
        assert(all.drop_last() =~= s.push(sep) + t.drop_last());
        assert(all.last() == t.last());
        assert(!seps.contains(t[t.len() - 1]));
        lemma_pieces_append(s, sep, t.drop_last(), seps);
        let front = pieces(all.drop_last(), seps);
        assert(front.drop_last() =~= pieces(s, seps));
        assert(front.last().push(all.last()) =~= t);
    }
}

/// Text without a separator is one piece.
pub proof fn lemma_one_piece(t: Seq<char>, seps: Seq<char>)
    requires
        free_of(t, seps),
    ensures
        pieces(t, seps) == seq![t],
    decreases t.len(),
{
    if t.len() == 0 {
        assert(t =~= Seq::<char>::empty());
    } else {
        assert(!seps.contains(t[t.len() - 1]));
        lemma_one_piece(t.drop_last(), seps);
        assert(pieces(t.drop_last(), seps).drop_last() =~= Seq::<Seq<char>>::empty());
        assert(t.drop_last().push(t.last()) =~= t);
        assert(pieces(t, seps) =~= seq![t]);
    }
}

/// What stands behind the last separator is the last word, where there is anything to it.
pub proof fn lemma_words_append(s: Seq<char>, sep: char, t: Seq<char>, seps: Seq<char>)
    requires
        seps.contains(sep),
        free_of(t, seps),
    ensures
        words(s.push(sep) + t, seps) == (if trimmed(t).len() > 0 {
            words(s, seps).push(trimmed(t))
        } else {
            words(s, seps)
        }),
{
    lemma_pieces_append(s, sep, t, seps);
    let f = |p: Seq<char>| trimmed(p);
    let front = pieces(s, seps).map_values(f);
    let all = pieces(s.push(sep) + t, seps).map_values(f);
    assert(all =~= front.push(trimmed(t)));
    assert(all.drop_last() =~= front);
    reveal(Seq::filter);
}

/// Parts that hold no separator are what the text of them is cut into again.
pub proof fn law_join_split(parts: Seq<Seq<char>>, sep: char)
    requires
        parts.len() > 0,
        forall|i: int| 0 <= i < parts.len() ==> free_of(#[trigger] parts[i], seq![sep]),
    ensures
        pieces(joined(parts, sep), seq![sep]) == parts,
    decreases parts.len(),
{
    if parts.len() == 1 {
        lemma_one_piece(parts[0], seq![sep]);
        assert(parts =~= seq![parts[0]]);
    } else {
        law_join_split(parts.drop_last(), sep);
        assert(seq![sep].contains(sep)) by {
            assert(seq![sep][0] == sep);
        }
        lemma_pieces_append(joined(parts.drop_last(), sep), sep, parts.last(), seq![sep]);
        assert(parts.drop_last().push(parts.last()) =~= parts);
    }
}

/// Text that neither begins nor ends in white space is as it is without it.
pub proof fn lemma_trimmed(s: Seq<char>)
    requires
        s.len() > 0 ==> !is_space(s[0]) && !is_space(s.last()),
    ensures
        trimmed(s) == s,
{
}

/// Cuts `s` at each character of `seps`.
pub fn split(s: &[char], seps: &[char]) -> (r: Vec<Vec<char>>)
    ensures
        rows(r@) == pieces(s@, seps@),
{
    let mut out: Vec<Vec<char>> = Vec::new();
    let mut cur: Vec<char> = Vec::new();
    let mut i: usize = 0;
    assert(rows(out@).push(cur@) =~= pieces(s@.take(0), seps@));
    while i < s.len()
        invariant
            i <= s.len(),
            rows(out@).push(cur@) == pieces(s@.take(i as int), seps@),
        decreases s.len() - i,
    {
        let c: char = s[i];
        let ghost front = pieces(s@.take(i as int), seps@);
        proof {
            assert(s@.take(i + 1).drop_last() =~= s@.take(i as int));
            assert(s@.take(i + 1).last() == c);
            assert(front.last() == cur@);
            assert(front.drop_last() =~= rows(out@));
        }
        if in_set(seps, c) {
            let ghost before = rows(out@);
            let ghost was = cur@;
            out.push(cur);
            cur = Vec::new();
            assert(rows(out@) =~= before.push(was));
            assert(cur@ =~= Seq::<char>::empty());
        } else {
            cur.push(c);
        }
        i = i + 1;
    }
    assert(s@.take(s@.len() as int) =~= s@);
    let ghost before = rows(out@);
    let ghost was = cur@;
    out.push(cur);
    assert(rows(out@) =~= before.push(was));
    out
}

/// Cuts `s` at each character of `seps` and keeps the pieces that hold something.
pub fn split_fields(s: &[char], seps: &[char]) -> (r: Vec<Vec<char>>)
    ensures
        rows(r@) == fields(s@, seps@),
{
    let all = split(s, seps);
    let mut out: Vec<Vec<char>> = Vec::new();
    let ghost keep = |p: Seq<char>| p.len() > 0;
    let mut i: usize = 0;
    proof {
        reveal(Seq::filter);
        assert(rows(out@) =~= rows(all@).take(0).filter(keep));
    }
    while i < all.len()
        invariant
            i <= all.len(),
            keep == |p: Seq<char>| p.len() > 0,
            rows(out@) == rows(all@).take(i as int).filter(keep),
        decreases all.len() - i,
    {
        let ghost before = rows(out@);
        proof {
            reveal(Seq::filter);
            assert(rows(all@).take(i + 1).drop_last() =~= rows(all@).take(i as int));
            assert(rows(all@).take(i + 1).last() == all@[i as int]@);
        }
        if all[i].len() > 0 {
            out.push(vec_of(&all[i]));
            assert(rows(out@) =~= before.push(all@[i as int]@));
        }
        i = i + 1;
    }
    assert(rows(all@).take(all@.len() as int) =~= rows(all@));
    out
}

/// Cuts `s` at each character of `seps` and keeps what is not white space.
pub fn split_words(s: &[char], seps: &[char]) -> (r: Vec<Vec<char>>)
    ensures
        rows(r@) == words(s@, seps@),
{
    let all = split(s, seps);
    let ghost keep = |p: Seq<char>| p.len() > 0;
    let ghost cut = rows(all@).map_values(|p: Seq<char>| trimmed(p));
    let mut out: Vec<Vec<char>> = Vec::new();
    let mut i: usize = 0;
    proof {
        reveal(Seq::filter);
        assert(rows(out@) =~= cut.take(0).filter(keep));
    }
    while i < all.len()
        invariant
            i <= all@.len(),
            keep == (|p: Seq<char>| p.len() > 0),
            cut == rows(all@).map_values(|p: Seq<char>| trimmed(p)),
            rows(out@) == cut.take(i as int).filter(keep),
        decreases all@.len() - i,
    {
        let t = trim(&all[i]);
        let ghost before = rows(out@);
        proof {
            reveal(Seq::filter);
            assert(cut.take(i + 1).drop_last() =~= cut.take(i as int));
            assert(cut.take(i + 1).last() == t@);
        }
        if t.len() > 0 {
            out.push(vec_of(t));
            assert(rows(out@) =~= before.push(t@));
        }
        i = i + 1;
    }
    assert(cut.take(all@.len() as int) =~= cut);
    assert(rows(all@) == pieces(s@, seps@));
    out
}

/// What stands between the white space.
pub fn split_tokens(s: &[char]) -> (r: Vec<Vec<char>>)
    ensures
        rows(r@) == tokens(s@),
{
    split_fields(s, &SPACES)
}

/// The lines of a text.
pub fn split_lines(s: &[char]) -> (r: Vec<Vec<char>>)
    ensures
        rows(r@) == lines(s@),
{
    let ends: [char; 1] = ['\n'];
    assert(ends@ =~= seq!['\n']);
    split(s, &ends)
}

/// What follows `front`, where `s` begins with it.
pub fn strip_front<'a>(s: &'a [char], front: &str) -> (r: Option<&'a [char]>)
    ensures
        match r {
            Some(t) => begins(s@, front@) && t@ == s@.subrange(front@.len() as int, s@.len() as int),
            None => !begins(s@, front@),
        },
{
    let f = chars_of(front);
    if f.len() <= s.len() && same_chars(&s[0..f.len()], &f) {
        Some(&s[f.len()..s.len()])
    } else {
        None
    }
}

/// What follows `front` in the first line that begins with it.
pub fn find_line<'a>(all: &'a Vec<Vec<char>>, front: &str) -> (r: Option<&'a [char]>)
    ensures
        match r {
            Some(t) => line_after(rows(all@), front@, 0) == Some(t@),
            None => line_after(rows(all@), front@, 0) is None,
        },
{
    let mut i: usize = 0;
    while i < all.len()
        invariant
            i <= all@.len(),
            line_after(rows(all@), front@, 0) == line_after(rows(all@), front@, i as int),
        decreases all@.len() - i,
    {
        assert(rows(all@)[i as int] == all@[i as int]@);
        if let Some(t) = strip_front(&all[i], front) {
            return Some(t);
        }
        i = i + 1;
    }
    None
}

/// The first index at which `c` stands; the length where it does not.
pub fn index_of(s: &[char], c: char) -> (r: usize)
    ensures
        r == index_from(s@, c, 0),
        r <= s@.len(),
        r < s@.len() ==> s@[r as int] == c,
{
    let mut i: usize = 0;
    while i < s.len()
        invariant
            i <= s@.len(),
            index_from(s@, c, 0) == index_from(s@, c, i as int),
        decreases s@.len() - i,
    {
        if s[i] == c {
            return i;
        }
        i = i + 1;
    }
    i
}

/// The lower-case form of an ASCII letter.
pub fn lower(c: char) -> (r: char)
    ensures
        r == ascii_lower(c),
{
    if 'A' <= c && c <= 'Z' {
        let n: u8 = c as u8;
        (n + 32) as char
    } else {
        c
    }
}

/// `s` with each ASCII letter in lower case.
pub fn lower_all(s: &[char]) -> (r: Vec<char>)
    ensures
        r@ == lowered(s@),
{
    let mut out: Vec<char> = Vec::new();
    let mut i: usize = 0;
    while i < s.len()
        invariant
            i <= s.len(),
            out@.len() == i,
            forall|j: int| 0 <= j < i ==> out@[j] == ascii_lower(s@[j]),
        decreases s.len() - i,
    {
        out.push(lower(s[i]));
        i = i + 1;
    }
    assert(out@ =~= lowered(s@));
    out
}

/// Whether `part` begins at the index `at` of `s`.
pub fn part_at(s: &[char], part: &[char], at: usize) -> (r: bool)
    ensures
        r == occurs_at(s@, part@, at as int),
{
    if at > s.len() || part.len() > s.len() - at {
        return false;
    }
    same_chars(&s[at..at + part.len()], part)
}

/// Whether `part` stands anywhere in `s`.
pub fn contains(s: &[char], part: &[char]) -> (r: bool)
    ensures
        r == has_part(s@, part@),
{
    let mut at: usize = 0;
    while at < s.len()
        invariant
            at <= s.len(),
            forall|j: int| 0 <= j < at ==> !occurs_at(s@, part@, j),
        decreases s.len() - at,
    {
        if part_at(s, part, at) {
            return true;
        }
        at = at + 1;
    }
    part_at(s, part, at)
}

/// Whether each character is white space.
pub open spec fn all_space(s: Seq<char>) -> bool {
    forall|i: int| 0 <= i < s.len() ==> is_space(#[trigger] s[i])
}

proof fn lemma_trim_start(s: Seq<char>) -> (front: Seq<char>)
    ensures
        all_space(front),
        s == front + trim_start(s),
        trim_start(s).len() > 0 ==> !is_space(trim_start(s)[0]),
    decreases s.len(),
{
    if s.len() > 0 && is_space(s[0]) {
        let rest = s.subrange(1, s.len() as int);
        let front = lemma_trim_start(rest);
        assert(s =~= seq![s[0]] + rest);
        assert(seq![s[0]] + (front + trim_start(rest)) =~= seq![s[0]] + front + trim_start(rest));
        seq![s[0]] + front
    } else {
        assert(s =~= Seq::<char>::empty() + s);
        Seq::empty()
    }
}

proof fn lemma_trim_end(s: Seq<char>) -> (back: Seq<char>)
    ensures
        all_space(back),
        s == trim_end(s) + back,
        trim_end(s).len() > 0 ==> !is_space(trim_end(s).last()),
    decreases s.len(),
{
    if s.len() > 0 && is_space(s.last()) {
        let back = lemma_trim_end(s.drop_last());
        let front = s.drop_last();
        assert(s =~= front.push(s.last()));
        assert((trim_end(front) + back).push(s.last()) =~= trim_end(front) + back.push(s.last()));
        back.push(s.last())
    } else {
        assert(s =~= s + Seq::<char>::empty());
        Seq::empty()
    }
}

/// What is trimmed off is white space, all of what is at the ends, and nothing else.
pub proof fn law_trimming(s: Seq<char>)
    ensures
        exists|front: Seq<char>, back: Seq<char>| #[trigger]
            all_space(front) && #[trigger] all_space(back) && s == front + trimmed(s) + back,
        trimmed(s).len() > 0 ==> !is_space(trimmed(s)[0]) && !is_space(trimmed(s).last()),
{
    let front = lemma_trim_start(s);
    let back = lemma_trim_end(trim_start(s));
    assert(s =~= front + trimmed(s) + back);
    assert(all_space(front) && all_space(back));
    if trimmed(s).len() > 0 {
        assert(trim_start(s)[0] == trimmed(s)[0]);
    }
}

/// The pieces of a text with the separator between them are the text, and none of them holds one.
pub proof fn law_split_join(s: Seq<char>, sep: char)
    ensures
        joined(pieces(s, seq![sep]), sep) == s,
        pieces(s, seq![sep]).len() > 0,
        forall|i: int| 0 <= i < pieces(s, seq![sep]).len() ==> free_of(#[trigger] pieces(s, seq![sep])[i], seq![sep]),
    decreases s.len(),
{
    let seps = seq![sep];
    let all = pieces(s, seps);
    if s.len() == 0 {
        assert(joined(all, sep) =~= s);
    } else {
        let front = pieces(s.drop_last(), seps);
        law_split_join(s.drop_last(), sep);
        let c = s.last();
        if seps.contains(c) {
            assert(c == sep);
            assert(all.drop_last() =~= front);
            assert(all.last() =~= Seq::<char>::empty());
            assert(joined(all, sep) =~= s.drop_last().push(sep) + Seq::<char>::empty());
            assert(joined(all, sep) =~= s);
        } else {
            assert(seps[0] == sep);
            assert(c != sep);
            let longer = front.last().push(c);
            assert(all =~= front.drop_last().push(longer));
            if front.len() == 1 {
                assert(joined(front, sep) == front[0]);
                assert(joined(all, sep) =~= longer);
            } else {
                assert(all.drop_last() =~= front.drop_last());
                assert(joined(all, sep) =~= joined(front, sep).push(c));
            }
            assert(s =~= s.drop_last().push(c));
            assert forall|i: int| 0 <= i < all.len() implies free_of(#[trigger] all[i], seps) by {
                if i < front.len() - 1 {
                    assert(all[i] == front[i]);
                    assert(free_of(front[i], seps));
                } else {
                    let last = front[front.len() - 1];
                    assert(free_of(last, seps));
                    assert forall|k: int| 0 <= k < longer.len() implies !seps.contains(#[trigger] longer[k]) by {
                        if k < last.len() {
                            assert(longer[k] == last[k]);
                        }
                    }
                }
            }
        }
    }
}

/// The index of a character is that of the first one, and the length where there is none.
pub proof fn law_index_is_first(s: Seq<char>, c: char, i: int)
    requires
        0 <= i <= s.len(),
    ensures
        i <= index_from(s, c, i) <= s.len(),
        index_from(s, c, i) < s.len() ==> s[index_from(s, c, i)] == c,
        forall|k: int| i <= k < index_from(s, c, i) ==> #[trigger] s[k] != c,
    decreases s.len() - i,
{
    if i < s.len() && s[i] != c {
        law_index_is_first(s, c, i + 1);
    }
}

/// What is found behind a beginning stands in the first line that begins so.
pub proof fn law_first_line_that_begins(lines: Seq<Seq<char>>, front: Seq<char>, i: int)
    requires
        0 <= i <= lines.len(),
    ensures
        line_after(lines, front, i) is None <==> forall|k: int|
            i <= k < lines.len() ==> !begins(#[trigger] lines[k], front),
        line_after(lines, front, i) matches Some(rest) ==> exists|k: int|
            i <= k < lines.len() && #[trigger] lines[k] == front + rest && forall|j: int|
                i <= j < k ==> !begins(#[trigger] lines[j], front),
    decreases lines.len() - i,
{
    if i < lines.len() {
        law_first_line_that_begins(lines, front, i + 1);
        if begins(lines[i], front) {
            let rest = lines[i].subrange(front.len() as int, lines[i].len() as int);
            assert(lines[i] =~= front + rest);
        } else if line_after(lines, front, i) is Some {
            let rest = line_after(lines, front, i)->0;
            let k = choose|k: int|
                i + 1 <= k < lines.len() && #[trigger] lines[k] == front + rest && forall|j: int|
                    i + 1 <= j < k ==> !begins(#[trigger] lines[j], front);
            assert(lines[k] == front + rest);
            assert forall|j: int| i <= j < k implies !begins(#[trigger] lines[j], front) by {}
        }
    }
}

} // verus!
