//! A file of another program, whose first line stands in place of the status.
use crate::config;
use crate::config::expand_tilde;
use crate::strings;
use crate::strings::{chars_of, split_lines, string_of, utf8_text};
use vstd::prelude::*;

verus! {

/// A file with more bytes than this is not read.
pub const MAX_BYTES: u64 = 65_536;

/// Whether `c` is a control character.
pub open spec fn is_control(c: char) -> bool {
    c as u32 <= 0x1F || 0x7F <= c as u32 <= 0x9F
}

/// Whether `c` is cut off at the ends of a line.
pub open spec fn is_blank(c: char) -> bool {
    c == '\r' || c == ' ' || c == '\t'
}

/// A line without the blanks at its beginning.
pub open spec fn cut_front(s: Seq<char>) -> Seq<char>
    decreases s.len(),
{
    if s.len() > 0 && is_blank(s[0]) {
        cut_front(s.drop_first())
    } else {
        s
    }
}

/// A line without the blanks at its end.
pub open spec fn cut_back(s: Seq<char>) -> Seq<char>
    decreases s.len(),
{
    if s.len() > 0 && is_blank(s.last()) {
        cut_back(s.drop_last())
    } else {
        s
    }
}

/// A line without the blanks at its ends.
pub open spec fn cut(s: Seq<char>) -> Seq<char> {
    cut_back(cut_front(s))
}

/// Whether a line can be shown: something stands on it, and no control character.
pub open spec fn showable(s: Seq<char>) -> bool {
    s.len() > 0 && forall|i: int| 0 <= i < s.len() ==> !is_control(#[trigger] s[i])
}

/// The first of the lines from `i` on that can be shown; nothing, where there is none.
pub open spec fn shown_of(lines: Seq<Seq<char>>, i: int) -> Seq<char>
    decreases lines.len() - i,
{
    if i < 0 || i >= lines.len() {
        Seq::empty()
    } else if showable(cut(lines[i])) {
        cut(lines[i])
    } else {
        shown_of(lines, i + 1)
    }
}

/// What is shown of a text.
pub open spec fn shown(text: Seq<char>) -> Seq<char> {
    shown_of(strings::lines(text), 0)
}

/// What is shown of the bytes of a file. Bytes that are no text are in the middle of being written.
pub open spec fn extracted(bytes: Seq<u8>) -> Seq<char> {
    if vstd::utf8::valid_utf8(bytes) {
        shown(vstd::utf8::decode_utf8(bytes))
    } else {
        Seq::empty()
    }
}

fn control(c: char) -> (r: bool)
    ensures
        r == is_control(c),
{
    let n: u32 = c as u32;
    n <= 0x1F || (0x7F <= n && n <= 0x9F)
}

fn blank(c: char) -> (r: bool)
    ensures
        r == is_blank(c),
{
    c == '\r' || c == ' ' || c == '\t'
}

/// A line without the blanks at its ends.
fn cut_line(s: &[char]) -> (r: &[char])
    ensures
        r@ == cut(s@),
{
    let mut lo: usize = 0;
    assert(s@.subrange(0, s.len() as int) =~= s@);
    while lo < s.len() && blank(s[lo])
        invariant
            lo <= s.len(),
            cut_front(s@) == cut_front(s@.subrange(lo as int, s.len() as int)),
        decreases s.len() - lo,
    {
        proof {
            let t = s@.subrange(lo as int, s.len() as int);
            assert(t.drop_first() =~= s@.subrange(lo + 1, s.len() as int));
        }
        lo = lo + 1;
    }
    let ghost t = s@.subrange(lo as int, s.len() as int);
    let mut hi: usize = s.len();
    while hi > lo && blank(s[hi - 1])
        invariant
            lo <= hi <= s.len(),
            cut_back(t) == cut_back(s@.subrange(lo as int, hi as int)),
        decreases hi,
    {
        proof {
            let u = s@.subrange(lo as int, hi as int);
            assert(u.drop_last() =~= s@.subrange(lo as int, hi - 1));
        }
        hi = hi - 1;
    }
    &s[lo..hi]
}

fn can_show(s: &[char]) -> (r: bool)
    ensures
        r == showable(s@),
{
    let mut i: usize = 0;
    while i < s.len()
        invariant
            i <= s@.len(),
            forall|k: int| 0 <= k < i ==> !is_control(#[trigger] s@[k]),
        decreases s@.len() - i,
    {
        if control(s[i]) {
            return false;
        }
        i = i + 1;
    }
    s.len() > 0
}

/// The first line of a text that can be shown; nothing, where there is none. A line with a control
/// character is passed over whole.
pub fn first_line(text: &str) -> (r: String)
    ensures
        r@ == shown(text@),
{
    let c = chars_of(text);
    let lines = split_lines(&c);
    let ghost all = strings::rows(lines@);
    let mut i: usize = 0;
    while i < lines.len()
        invariant
            i <= lines@.len(),
            all == strings::rows(lines@),
            all == strings::lines(text@),
            shown_of(all, 0) == shown_of(all, i as int),
        decreases lines@.len() - i,
    {
        let l = cut_line(&lines[i]);
        assert(all[i as int] == lines@[i as int]@);
        if can_show(l) {
            return string_of(l);
        }
        i = i + 1;
    }
    String::new()
}

/// What is shown of the bytes of a file.
pub fn extract(bytes: &[u8]) -> (r: String)
    ensures
        r@ == extracted(bytes@),
{
    match utf8_text(bytes) {
        Some(text) => {
            proof {
                vstd::utf8::encode_utf8_decode_utf8(text@);
            }
            first_line(text)
        },
        None => String::new(),
    }
}

/// A file of another program, of which a line is shown.
pub struct Source {
    pub path: Option<String>,
    /// The size and the time of the last change when it was last looked at.
    pub stamp: Option<(u64, u64)>,
    pub line: Option<String>,
}

/// A file of another program, of which a line is shown.
pub ghost struct Feed {
    pub path: Option<Seq<char>>,
    pub stamp: Option<(u64, u64)>,
    pub line: Option<Seq<char>>,
}

impl View for Source {
    type V = Feed;

    open spec fn view(&self) -> Feed {
        Feed {
            path: config::text_of(self.path),
            stamp: self.stamp,
            line: config::text_of(self.line),
        }
    }
}

/// The path that is configured, where one is.
pub open spec fn source_path(raw: Option<Seq<char>>, home: Option<Seq<char>>) -> Option<Seq<char>> {
    match raw {
        Some(p) if config::expanded(p, home).len() > 0 => Some(config::expanded(p, home)),
        _ => None,
    }
}

impl Feed {
    /// What is known after a look at the file, and whether it is to be read now. Without a path
    /// there is no file; a file that is as it was is not read again, and of one that is gone or has
    /// changed nothing is shown any longer.
    pub open spec fn looked(self, stat: Option<(u64, u64)>) -> (Feed, bool) {
        if self.path is None {
            (self, false)
        } else {
            match stat {
                Some(s) => if self.stamp == Some(s) {
                    (self, false)
                } else {
                    (Feed { stamp: Some(s), line: None, ..self }, s.0 <= MAX_BYTES)
                },
                None => (Feed { stamp: None, line: None, ..self }, false),
            }
        }
    }

    /// What is known after the file was read, as far as it could be.
    pub open spec fn filled(self, bytes: Option<Seq<u8>>) -> Feed {
        Feed {
            line: match bytes {
                Some(b) if extracted(b).len() > 0 => Some(extracted(b)),
                _ => None,
            },
            ..self
        }
    }
}

impl Source {
    /// The file at `raw`, with the home directory in place of a `~`. Nothing but white space is no
    /// path.
    pub fn new(raw: Option<&str>, home: Option<&str>) -> (r: Self)
        ensures
            r@ == (Feed {
                path: source_path(config::text_at(raw), config::text_at(home)),
                stamp: None,
                line: None,
            }),
    {
        let path = match raw {
            Some(p) => {
                let full = expand_tilde(p, home);
                if full.as_str().is_empty() {
                    None
                } else {
                    Some(full)
                }
            },
            None => None,
        };
        Source { path, stamp: None, line: None }
    }

    /// The line to show.
    pub fn text(&self) -> (r: Option<&str>)
        ensures
            config::text_at(r) == self@.line,
    {
        match &self.line {
            Some(s) => Some(s.as_str()),
            None => None,
        }
    }

    /// Takes in a look at the file, its size and the time of its last change, and says whether to
    /// read it now.
    pub fn refresh(&mut self, stat: Option<(u64, u64)>) -> (r: bool)
        ensures
            (final(self)@, r) == old(self)@.looked(stat),
    {
        if self.path.is_none() {
            return false;
        }
        match stat {
            Some((len, at)) => {
                if let Some((l, a)) = self.stamp {
                    if l == len && a == at {
                        return false;
                    }
                }
                self.stamp = Some((len, at));
                self.line = None;
                len <= MAX_BYTES
            },
            None => {
                self.stamp = None;
                self.line = None;
                false
            },
        }
    }

    /// Takes in what the file holds.
    pub fn fill(&mut self, bytes: Option<&[u8]>)
        ensures
            final(self)@ == old(self)@.filled(
                match bytes {
                    Some(b) => Some(b@),
                    None => None,
                },
            ),
    {
        self.line = match bytes {
            Some(b) => {
                let line = extract(b);
                if line.as_str().is_empty() {
                    None
                } else {
                    Some(line)
                }
            },
            None => None,
        };
    }
}

/// What is shown is one line without control characters, whatever the file holds.
pub proof fn law_only_lines_are_shown(bytes: Seq<u8>)
    ensures
        extracted(bytes).len() > 0 ==> showable(extracted(bytes)),
{
    if vstd::utf8::valid_utf8(bytes) {
        lemma_shown(strings::lines(vstd::utf8::decode_utf8(bytes)), 0);
    }
}

proof fn lemma_shown(lines: Seq<Seq<char>>, i: int)
    ensures
        shown_of(lines, i).len() > 0 ==> showable(shown_of(lines, i)),
    decreases lines.len() - i,
{
    if 0 <= i < lines.len() {
        lemma_shown(lines, i + 1);
    }
}

/// What is shown is never older than the last look: after it the line is that of the file as it
/// was found then, or there is none.
pub proof fn law_nothing_stale_is_shown(f: Feed, stat: Option<(u64, u64)>, bytes: Option<Seq<u8>>)
    requires
        f.path is Some,
        f.stamp != stat || stat is None,
    ensures
        f.looked(stat).0.line is None,
        f.looked(stat).0.stamp == stat,
        f.looked(stat).1 ==> f.looked(stat).0.filled(bytes).line == f.filled(bytes).line,
{
}

/// What is shown of a file is the first of its lines on which something can be shown, without the
/// blanks at its ends.
pub proof fn law_first_line_is_shown(lines: Seq<Seq<char>>, k: int)
    requires
        0 <= k <= lines.len(),
        forall|i: int| 0 <= i < k ==> !showable(cut(#[trigger] lines[i])),
        k < lines.len() ==> showable(cut(lines[k])),
    ensures
        k < lines.len() ==> shown_of(lines, 0) == cut(lines[k]),
        k == lines.len() ==> shown_of(lines, 0) == Seq::<char>::empty(),
{
    lemma_shown_from(lines, 0, k);
}

proof fn lemma_shown_from(lines: Seq<Seq<char>>, i: int, k: int)
    requires
        0 <= i <= k <= lines.len(),
        forall|j: int| 0 <= j < k ==> !showable(cut(#[trigger] lines[j])),
        k < lines.len() ==> showable(cut(lines[k])),
    ensures
        k < lines.len() ==> shown_of(lines, i) == cut(lines[k]),
        k == lines.len() ==> shown_of(lines, i) == Seq::<char>::empty(),
    decreases k - i,
{
    if i < k {
        assert(!showable(cut(lines[i])));
        lemma_shown_from(lines, i + 1, k);
    }
}

/// Whether each character is a blank.
pub open spec fn all_blank(s: Seq<char>) -> bool {
    forall|i: int| 0 <= i < s.len() ==> is_blank(#[trigger] s[i])
}

/// What is cut off a line is blank, all of what is at its ends, and nothing else.
pub proof fn law_blanks_are_cut(s: Seq<char>)
    ensures
        exists|front: Seq<char>, back: Seq<char>| #[trigger]
            all_blank(front) && #[trigger] all_blank(back) && s == front + cut(s) + back,
        cut(s).len() > 0 ==> !is_blank(cut(s)[0]) && !is_blank(cut(s).last()),
{
    let front = lemma_cut_front(s);
    let back = lemma_cut_back(cut_front(s));
    assert(s =~= front + cut(s) + back);
    assert(all_blank(front) && all_blank(back));
    if cut(s).len() > 0 {
        assert(cut_front(s)[0] == cut(s)[0]);
    }
}

proof fn lemma_cut_front(s: Seq<char>) -> (front: Seq<char>)
    ensures
        all_blank(front),
        s == front + cut_front(s),
        cut_front(s).len() > 0 ==> !is_blank(cut_front(s)[0]),
    decreases s.len(),
{
    if s.len() > 0 && is_blank(s[0]) {
        let front = lemma_cut_front(s.drop_first());
        let rest = s.drop_first();
        assert(s =~= seq![s[0]] + rest);
        assert(seq![s[0]] + (front + cut_front(rest)) =~= seq![s[0]] + front + cut_front(rest));
        seq![s[0]] + front
    } else {
        assert(s =~= Seq::<char>::empty() + s);
        Seq::empty()
    }
}

proof fn lemma_cut_back(s: Seq<char>) -> (back: Seq<char>)
    ensures
        all_blank(back),
        s == cut_back(s) + back,
        cut_back(s).len() > 0 ==> !is_blank(cut_back(s).last()),
    decreases s.len(),
{
    if s.len() > 0 && is_blank(s.last()) {
        let back = lemma_cut_back(s.drop_last());
        let front = s.drop_last();
        assert(s =~= front.push(s.last()));
        assert((cut_back(front) + back).push(s.last()) =~= cut_back(front) + back.push(s.last()));
        back.push(s.last())
    } else {
        assert(s =~= s + Seq::<char>::empty());
        Seq::empty()
    }
}

} // verus!
