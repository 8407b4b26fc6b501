//! The sound at the end: which one, what a sound file holds, and how loud it is.
use crate::bytes;
use crate::bytes::{le_u16, le_u32};
use crate::config;
use crate::config::expand_tilde;
use crate::render;
use crate::render::nibble;
use crate::single;
use crate::single::round;
use crate::strings;
use crate::strings::{chars_are, chars_of, lower_all, push_number, string_of, trim};
use crate::tone;
use crate::tone::tone_digits;
use vstd::arithmetic::power2;
use vstd::prelude::*;

verus! {

/// A file with more bytes than this is not read.
pub const MAX_AUDIO_BYTES: u64 = 4_194_304;

// ---- which sound ----

/// Whether a sound is the one that the program makes itself.
pub open spec fn beeps(s: Seq<char>) -> bool {
    let t = strings::lowered(strings::trimmed(s));
    t == "beep"@ || t == "system_beep"@
}

/// Whether `spec` names the sound that the program makes itself.
pub fn is_beep(spec: &str) -> (r: bool)
    ensures
        r == beeps(spec@),
{
    let c = chars_of(spec);
    let t = lower_all(trim(&c));
    chars_are(&t, "beep") || chars_are(&t, "system_beep")
}

/// A sound to play.
pub enum Sound {
    /// The one that the program makes itself.
    Beep,
    /// The one in the file at this path.
    File(String),
}

/// Whether the sound is the one that `s` names.
pub open spec fn is_sound(sound: Sound, s: Seq<char>, home: Option<Seq<char>>) -> bool {
    match sound {
        Sound::Beep => beeps(s),
        Sound::File(p) => !beeps(s) && p@ == config::expanded(strings::trimmed(s), home),
    }
}

/// The sound that `spec` names and how loud it is, of 100; none, where nothing is named or it would
/// not be heard.
pub fn choice(spec: &str, volume: u8, home: Option<&str>) -> (r: Option<(Sound, u8)>)
    ensures
        match r {
            Some((sound, v)) => {
                &&& strings::trimmed(spec@).len() > 0 && volume > 0
                &&& is_sound(sound, spec@, config::text_at(home))
                &&& v == (if volume > 100 {
                    100
                } else {
                    volume
                })
            },
            None => strings::trimmed(spec@).len() == 0 || volume == 0,
        },
{
    let c = chars_of(spec);
    let t = trim(&c);
    if t.len() == 0 || volume == 0 {
        return None;
    }
    let v: u8 = if volume > 100 {
        100
    } else {
        volume
    };
    if is_beep(spec) {
        Some((Sound::Beep, v))
    } else {
        let named = string_of(t);
        Some((Sound::File(expand_tilde(named.as_str(), home)), v))
    }
}

// ---- the sound that the program makes itself ----

/// The frames in a second of the sound that the program makes itself.
pub const BEEP_RATE: u32 = 44_100;

/// The frames of one of its two tones: 120 ms.
pub const TONE_FRAMES: usize = 5292;

/// The frames of the silence between them: 60 ms.
pub const GAP_FRAMES: usize = 2646;

/// The sample number `at` of a tone that is written in hexadecimal digits, four for each.
pub open spec fn written(digits: Seq<char>, at: int) -> int {
    if 4 * at + 4 <= digits.len() {
        let d = |i: int| hex_or_zero(digits[4 * at + i]);
        signed16(d(0) * 0x1000 + d(1) * 0x100 + d(2) * 0x10 + d(3))
    } else {
        0
    }
}

/// The value of a hexadecimal digit; 0 for anything else.
pub open spec fn hex_or_zero(c: char) -> int {
    match render::hex_value(c) {
        Some(n) => n,
        None => 0,
    }
}

/// The sample of a frame of the sound that the program makes itself, the same on both channels.
pub open spec fn beat(frame: int) -> int {
    let at = if frame < TONE_FRAMES {
        frame
    } else {
        frame - TONE_FRAMES - GAP_FRAMES
    };
    if 0 <= at < TONE_FRAMES {
        written(tone::digits(), at)
    } else {
        0
    }
}

fn digit_at(digits: &[char], i: usize) -> (r: u16)
    requires
        i < digits@.len(),
    ensures
        r == hex_or_zero(digits@[i as int]),
        r < 16,
{
    match nibble(digits[i]) {
        Some(n) => n as u16,
        None => 0,
    }
}

/// The sample number `at` of a tone.
fn sample_at(digits: &[char], at: usize) -> (r: i16)
    requires
        at < TONE_FRAMES,
    ensures
        r == written(digits@, at as int),
{
    let i: usize = 4 * at;
    if i + 4 > digits.len() {
        return 0;
    }
    let v: u16 = digit_at(digits, i) * 0x1000 + digit_at(digits, i + 1) * 0x100 + digit_at(
        digits,
        i + 2,
    ) * 0x10 + digit_at(digits, i + 3);
    to_signed(v)
}

/// Adds a tone, on both channels.
fn add_tone(out: &mut Vec<i16>, start: usize)
    requires
        start == 0 || start == TONE_FRAMES + GAP_FRAMES,
        old(out)@.len() == 2 * start,
        forall|k: int| 0 <= k < old(out)@.len() ==> #[trigger] old(out)@[k] == beat(k / 2),
    ensures
        final(out)@.len() == 2 * (start + TONE_FRAMES),
        forall|k: int| 0 <= k < final(out)@.len() ==> #[trigger] final(out)@[k] == beat(k / 2),
{
    let text = tone_digits();
    let digits = chars_of(text.as_str());
    let mut at: usize = 0;
    while at < TONE_FRAMES
        invariant
            at <= TONE_FRAMES,
            digits@ == tone::digits(),
            start == 0 || start == TONE_FRAMES + GAP_FRAMES,
            out@.len() == 2 * (start + at),
            forall|k: int| 0 <= k < out@.len() ==> #[trigger] out@[k] == beat(k / 2),
        decreases TONE_FRAMES - at,
    {
        let s: i16 = sample_at(&digits, at);
        assert(s == beat(start + at));
        out.push(s);
        out.push(s);
        at = at + 1;
    }
}

/// The sound that the program makes itself: two tones with a silence between them.
pub fn beep() -> (r: Audio)
    ensures
        r.rate == BEEP_RATE,
        r.channels == 2,
        r.samples@.len() == 2 * (2 * TONE_FRAMES + GAP_FRAMES),
        forall|k: int| 0 <= k < r.samples@.len() ==> #[trigger] r.samples@[k] == beat(k / 2),
{
    let mut out: Vec<i16> = Vec::new();
    add_tone(&mut out, 0);
    let mut n: usize = 0;
    while n < GAP_FRAMES
        invariant
            n <= GAP_FRAMES,
            out@.len() == 2 * (TONE_FRAMES + n),
            forall|k: int| 0 <= k < out@.len() ==> #[trigger] out@[k] == beat(k / 2),
        decreases GAP_FRAMES - n,
    {
        out.push(0);
        out.push(0);
        n = n + 1;
    }
    add_tone(&mut out, TONE_FRAMES + GAP_FRAMES);
    Audio { samples: out, rate: BEEP_RATE, channels: 2 }
}

/// The two tones are the same, and between them there is silence.
pub proof fn law_beep_is_two_tones(frame: int)
    requires
        0 <= frame,
    ensures
        frame < TONE_FRAMES ==> beat(frame + TONE_FRAMES + GAP_FRAMES) == beat(frame),
        TONE_FRAMES <= frame < TONE_FRAMES + GAP_FRAMES ==> beat(frame) == 0,
{
}

// ---- what a file holds ----

/// A sound: samples, those of one frame one after the other, and how they are played.
pub struct Audio {
    pub samples: Vec<i16>,
    pub rate: u32,
    pub channels: u32,
}

/// The names of the parts of a file.
pub const RIFF: [u8; 4] = [82, 73, 70, 70];

pub const WAVE: [u8; 4] = [87, 65, 86, 69];

pub const FMT: [u8; 4] = [102, 109, 116, 32];

pub const DATA: [u8; 4] = [100, 97, 116, 97];

/// What the first chunk with the name `tag` from `from` on holds; none, where there is no such
/// chunk or it is cut short. A chunk takes an even number of bytes.
pub open spec fn chunk(b: Seq<u8>, from: int, tag: Seq<u8>) -> Option<Seq<u8>>
    decreases b.len() - from,
{
    if from < 0 || from + 8 > b.len() {
        None
    } else {
        let len = bytes::le32(b, from + 4);
        if b.subrange(from, from + 4) == tag {
            if from + 8 + len <= b.len() {
                Some(b.subrange(from + 8, from + 8 + len))
            } else {
                None
            }
        } else if from + 8 + len + len % 2 > b.len() {
            None
        } else {
            chunk(b, from + 8 + len + len % 2, tag)
        }
    }
}

fn tagged(b: &[u8], at: usize, tag: &[u8; 4]) -> (r: bool)
    requires
        at + 4 <= b.len(),
    ensures
        r == (b@.subrange(at as int, at + 4) == tag@),
{
    let r = b[at] == tag[0] && b[at + 1] == tag[1] && b[at + 2] == tag[2] && b[at + 3] == tag[3];
    proof {
        let s = b@.subrange(at as int, at + 4);
        assert(s[0] == b@[at as int] && s[1] == b@[at + 1] && s[2] == b@[at + 2] && s[3] == b@[at
            + 3]);
        if r {
            assert(s =~= tag@);
        }
    }
    r
}

/// What the first chunk with the name `tag` from `from` on holds.
pub fn find_chunk<'a>(b: &'a [u8], from: usize, tag: &[u8; 4]) -> (r: Option<&'a [u8]>)
    ensures
        match r {
            Some(s) => chunk(b@, from as int, tag@) == Some(s@),
            None => chunk(b@, from as int, tag@) is None,
        },
{
    let mut at: usize = from;
    while b.len() >= 8 && at <= b.len() - 8
        invariant
            chunk(b@, from as int, tag@) == chunk(b@, at as int, tag@),
        decreases b.len() - at,
    {
        let len: usize = le_u32(b, at + 4) as usize;
        let rest: usize = b.len() - 8 - at;
        let named = tagged(b, at, tag);
        if len > rest {
            return None;
        }
        if named {
            return Some(&b[at + 8..at + 8 + len]);
        }
        let pad: usize = len % 2;
        if pad > rest - len {
            return None;
        }
        at = at + 8 + len + pad;
    }
    None
}

/// How the samples of a file are written.
#[derive(Clone, Copy, Debug, PartialEq, Eq, Structural)]
pub struct Format {
    pub channels: u32,
    pub rate: u32,
    pub bits: u32,
    pub float: bool,
}

/// How the samples of a file are written, or what is wrong with its header.
pub open spec fn header(b: Seq<u8>) -> Result<Format, Seq<char>> {
    if b.len() < 12 || b.subrange(0, 4) != RIFF@ || b.subrange(8, 12) != WAVE@ {
        Err("不是 RIFF/WAVE 文件"@)
    } else {
        match chunk(b, 12, FMT@) {
            None => Err("WAV 里没有 fmt 块"@),
            Some(f) => if f.len() < 16 {
                Err("fmt 块太短"@)
            } else if bytes::le16(f, 0) != 1 && bytes::le16(f, 0) != 3 {
                Err(
                    "不支持的编码 "@ + strings::digits(bytes::le16(f, 0) as nat)
                        + "（只解 PCM/float；MP3 等不支持）"@,
                )
            } else if !(1 <= bytes::le16(f, 2) <= 8 && 8_000 <= bytes::le32(f, 4) <= 192_000) {
                Err(
                    "越界的声道数/采样率："@ + strings::digits(bytes::le16(f, 2) as nat) + "ch @"@
                        + strings::digits(bytes::le32(f, 4) as nat) + "Hz"@,
                )
            } else {
                Ok(
                    Format {
                        channels: bytes::le16(f, 2) as u32,
                        rate: bytes::le32(f, 4) as u32,
                        bits: bytes::le16(f, 14) as u32,
                        float: bytes::le16(f, 0) == 3,
                    },
                )
            },
        }
    }
}

/// The value or the words that a result holds.
pub open spec fn outcome<T>(r: Result<T, String>) -> Result<T, Seq<char>> {
    match r {
        Ok(v) => Ok(v),
        Err(e) => Err(e@),
    }
}

/// How the samples of a file are written: as whole numbers or as floating-point numbers, on one to
/// eight channels.
pub fn wav_format(b: &[u8]) -> (r: Result<Format, String>)
    ensures
        outcome(r) == header(b@),
{
    if b.len() < 12 || !tagged(b, 0, &RIFF) || !tagged(b, 8, &WAVE) {
        return Err(String::from_str("不是 RIFF/WAVE 文件"));
    }
    let f = match find_chunk(b, 12, &FMT) {
        Some(f) => f,
        None => {
            return Err(String::from_str("WAV 里没有 fmt 块"));
        },
    };
    if f.len() < 16 {
        return Err(String::from_str("fmt 块太短"));
    }
    let codec: u32 = le_u16(f, 0) as u32;
    if codec != 1 && codec != 3 {
        let mut e = String::from_str("不支持的编码 ");
        push_number(&mut e, codec as u64);
        e.append("（只解 PCM/float；MP3 等不支持）");
        return Err(e);
    }
    let channels: u32 = le_u16(f, 2) as u32;
    let rate: u32 = le_u32(f, 4);
    let bits: u32 = le_u16(f, 14) as u32;
    if channels == 0 || channels > 8 || rate < 8_000 || rate > 192_000 {
        let mut e = String::from_str("越界的声道数/采样率：");
        push_number(&mut e, channels as u64);
        e.append("ch @");
        push_number(&mut e, rate as u64);
        e.append("Hz");
        return Err(e);
    }
    Ok(Format { channels, rate, bits, float: codec == 3 })
}

/// The channels, the rate, the bits of a sample, and whether it is a floating-point number.
pub fn parse_wav_header(b: &[u8]) -> (r: Result<(u32, u32, u32, bool), String>)
    ensures
        outcome(r) == (match header(b@) {
            Ok(f) => Ok::<(u32, u32, u32, bool), Seq<char>>((f.channels, f.rate, f.bits, f.float)),
            Err(e) => Err(e),
        }),
{
    match wav_format(b) {
        Ok(f) => Ok((f.channels, f.rate, f.bits, f.float)),
        Err(e) => Err(e),
    }
}

// ---- samples ----

/// The signed number that two bytes write in two's complement.
pub open spec fn signed16(v: int) -> int {
    if v >= 0x8000 {
        v - 0x1_0000
    } else {
        v
    }
}

/// What a number between 0 and 1, of which `m` is the significand and `2^-shift` its unit, makes of
/// the loudest sample: their product in single precision, without what is behind the point.
pub open spec fn part_of_full(m: nat, shift: nat) -> int {
    (single::rounded(m * 32_767, 1) / power2::pow2(shift)) as int
}

/// The size of the sample that the single-precision number with these bits makes, but for its sign.
/// What is no number makes silence, as does a number too small for one step, and all from 1 on makes
/// the loudest sample.
pub open spec fn single_size(mag: int) -> int {
    let e = mag / 0x80_0000;
    let m = mag % 0x80_0000;
    if e == 255 && m != 0 {
        0
    } else if e >= 127 {
        32_767
    } else if e < 111 {
        0
    } else {
        part_of_full((0x80_0000 + m) as nat, (150 - e) as nat)
    }
}

/// The size of the sample that the double-precision number with these bits makes, but for its sign:
/// that of the single-precision number nearest to it.
pub open spec fn double_size(mag: int) -> int {
    let e = mag / 0x10_0000_0000_0000;
    let m = mag % 0x10_0000_0000_0000;
    if e == 2047 && m != 0 {
        0
    } else if e >= 1023 {
        32_767
    } else if e < 1007 {
        0
    } else {
        part_of_full(single::rounded((0x10_0000_0000_0000 + m) as nat, 1), (1075 - e) as nat)
    }
}

/// The sample at `at`, written in one of the ways that are known.
pub open spec fn sample(b: Seq<u8>, at: int, bits: int, float: bool) -> int {
    if float && bits == 32 {
        let v = bytes::le32(b, at);
        if v >= 0x8000_0000 {
            -single_size(v - 0x8000_0000)
        } else {
            single_size(v)
        }
    } else if float {
        let v = bytes::le32(b, at) + bytes::le32(b, at + 4) * 0x1_0000_0000;
        if v >= 0x8000_0000_0000_0000 {
            -double_size(v - 0x8000_0000_0000_0000)
        } else {
            double_size(v)
        }
    } else if bits == 8 {
        (b[at] - 128) * 256
    } else {
        signed16(bytes::le16(b, at + bits / 8 - 2))
    }
}

/// Whether samples can be written like this.
pub open spec fn known_format(bits: int, float: bool) -> bool {
    if float {
        bits == 32 || bits == 64
    } else {
        bits == 8 || bits == 16 || bits == 24 || bits == 32
    }
}

/// Whether these are whole frames of samples that can be read.
pub open spec fn readable(len: int, bits: int, float: bool, channels: int) -> bool {
    &&& known_format(bits, float)
    &&& channels > 0
    &&& len > 0
    &&& len % (bits / 8 * channels) == 0
}

/// The samples in `data`, each brought to sixteen bits.
pub open spec fn samples(data: Seq<u8>, bits: int, float: bool) -> Seq<i16> {
    Seq::new(
        (data.len() as int / (bits / 8)) as nat,
        |i: int| sample(data, i * (bits / 8), bits, float) as i16,
    )
}

fn to_signed(v: u16) -> (r: i16)
    ensures
        r == signed16(v as int),
{
    if v >= 0x8000 {
        (v as i32 - 0x1_0000) as i16
    } else {
        v as i16
    }
}

fn power(n: u32) -> (r: u128)
    requires
        n <= 100,
    ensures
        r == power2::pow2(n as nat),
{
    let mut p: u128 = 1;
    let mut i: u32 = 0;
    proof {
        power2::lemma2_to64();
    }
    while i < n
        invariant
            i <= n <= 100,
            p == power2::pow2(i as nat),
        decreases n - i,
    {
        proof {
            power2::lemma_pow2_unfold((i + 1) as nat);
            power2::lemma_pow2_strictly_increases((i + 1) as nat, 127);
            lemma_pow2_127();
        }
        p = 2 * p;
        i = i + 1;
    }
    p
}

proof fn lemma_pow2_127()
    ensures
        power2::pow2(127) == 0x8000_0000_0000_0000_0000_0000_0000_0000int,
{
    power2::lemma2_to64();
    power2::lemma2_to64_rest();
    power2::lemma_pow2_adds(63, 64);
    assert(0x8000_0000_0000_0000int * 0x1_0000_0000_0000_0000int == 0x8000_0000_0000_0000_0000_0000_0000_0000int);
}

/// A number below 1 makes a sample that is not louder than the loudest.
proof fn lemma_part(m: nat, bits: nat, shift: nat)
    requires
        24 <= bits <= 53,
        m <= power2::pow2(bits) + power2::pow2(bits) / 0x80_0000,
        bits <= shift,
    ensures
        0 <= part_of_full(m, shift) <= 32_767,
{
    let n = m * 32_767;
    let top = power2::pow2(bits);
    power2::lemma_pow2_pos(bits);
    power2::lemma_pow2_pos(shift);
    assert(top >= 0x100_0000) by {
        power2::lemma2_to64();
        if bits > 24 {
            power2::lemma_pow2_strictly_increases(24, bits);
        }
    }
    single::law_rounding_is_small(n);
    assert(single::rounded(n, 1) < top * 32_768);
    if bits < shift {
        power2::lemma_pow2_strictly_increases(bits, shift);
    }
    let big = power2::pow2(shift);
    let r = single::rounded(n, 1);
    assert(r / big < 32_768) by (nonlinear_arith)
        requires
            r < top * 32_768,
            0 < top <= big,
    ;
}

/// What a number between 0 and 1 makes of the loudest sample.
fn scaled(m: u64, shift: u32) -> (r: i16)
    requires
        m <= 0x40_0000_0000_0000,
        shift <= 100,
        0 <= part_of_full(m as nat, shift as nat) <= 32_767,
    ensures
        r == part_of_full(m as nat, shift as nat),
{
    let p: u128 = power(shift);
    proof {
        power2::lemma_pow2_pos(shift as nat);
    }
    (round(m as u128 * 32_767, 1) / p) as i16
}

fn size_of_single(mag: u32) -> (r: i16)
    requires
        mag < 0x8000_0000,
    ensures
        r == single_size(mag as int),
        0 <= r <= 32_767,
{
    let e: u32 = mag / 0x80_0000;
    let m: u32 = mag % 0x80_0000;
    if e == 255 && m != 0 {
        0
    } else if e >= 127 {
        32_767
    } else if e < 111 {
        0
    } else {
        let whole: u64 = 0x80_0000 + m as u64;
        proof {
            power2::lemma2_to64();
            lemma_part(whole as nat, 24, (150 - e) as nat);
        }
        scaled(whole, 150 - e)
    }
}

fn size_of_double(mag: u64) -> (r: i16)
    requires
        mag < 0x8000_0000_0000_0000,
    ensures
        r == double_size(mag as int),
        0 <= r <= 32_767,
{
    let e: u64 = mag / 0x10_0000_0000_0000;
    let m: u64 = mag % 0x10_0000_0000_0000;
    if e == 2047 && m != 0 {
        0
    } else if e >= 1023 {
        32_767
    } else if e < 1007 {
        0
    } else {
        let whole: u64 = 0x10_0000_0000_0000 + m;
        let near: u128 = round(whole as u128, 1);
        proof {
            single::law_rounding_is_small(whole as nat);
            power2::lemma2_to64();
            power2::lemma2_to64_rest();
            lemma_part(near as nat, 53, (1075 - e) as nat);
        }
        scaled(near as u64, (1075 - e) as u32)
    }
}

/// The sample at `at`.
fn read_sample(b: &[u8], at: usize, bits: u32, float: bool) -> (r: i16)
    requires
        known_format(bits as int, float),
        at + bits / 8 <= b.len(),
    ensures
        r == sample(b@, at as int, bits as int, float),
{
    if float && bits == 32 {
        let v: u32 = le_u32(b, at);
        if v >= 0x8000_0000 {
            -size_of_single(v - 0x8000_0000)
        } else {
            size_of_single(v)
        }
    } else if float {
        let v: u64 = le_u32(b, at) as u64 + le_u32(b, at + 4) as u64 * 0x1_0000_0000;
        if v >= 0x8000_0000_0000_0000 {
            -size_of_double(v - 0x8000_0000_0000_0000)
        } else {
            size_of_double(v)
        }
    } else if bits == 8 {
        (b[at] as i16 - 128) * 256
    } else {
        to_signed(le_u16(b, at + (bits / 8) as usize - 2))
    }
}

/// The samples in `data`, each brought to sixteen bits: as many as there are, in their order. Data
/// that is not made of whole frames is not read, nor are samples that are written in another way.
pub fn decode_pcm(data: &[u8], bits: u32, is_float: bool, channels: u32) -> (r: Option<Vec<i16>>)
    ensures
        match r {
            Some(v) => readable(data@.len() as int, bits as int, is_float, channels as int) && v@
                == samples(data@, bits as int, is_float),
            None => !readable(data@.len() as int, bits as int, is_float, channels as int),
        },
{
    let known = if is_float {
        bits == 32 || bits == 64
    } else {
        bits == 8 || bits == 16 || bits == 24 || bits == 32
    };
    if !known || channels == 0 || data.len() == 0 {
        return None;
    }
    let width: usize = (bits / 8) as usize;
    assert(0 < width * channels <= 8 * 0xFFFF_FFFF) by (nonlinear_arith)
        requires
            0 < width <= 8,
            0 < channels <= 0xFFFF_FFFF,
    ;
    let stride: u64 = width as u64 * channels as u64;
    if data.len() as u64 % stride != 0 {
        return None;
    }
    let ghost frames = data@.len() as int / (stride as int);
    let n: usize = data.len() / width;
    proof {
        assert(data@.len() == frames * (width * channels)) by (nonlinear_arith)
            requires
                stride == width * channels,
                stride > 0,
                data@.len() as int % (stride as int) == 0,
                frames == data@.len() as int / (stride as int),
        ;
        assert(frames * (width * channels) == (frames * channels) * width) by (nonlinear_arith);
        assert(n == frames * channels) by (nonlinear_arith)
            requires
                data@.len() == (frames * channels) * width,
                width > 0,
                n == data@.len() as int / (width as int),
        ;
    }
    let mut out: Vec<i16> = Vec::new();
    let mut i: usize = 0;
    while i < n
        invariant
            i <= n,
            n * width == data.len(),
            n == data@.len() as int / (bits as int / 8),
            width == bits / 8,
            width > 0,
            known_format(bits as int, is_float),
            out@.len() == i,
            forall|k: int|
                0 <= k < i ==> #[trigger] out@[k] == sample(
                    data@,
                    k * (bits as int / 8),
                    bits as int,
                    is_float,
                ) as i16,
        decreases n - i,
    {
        assert(0 <= i * width && i * width + width <= n * width) by (nonlinear_arith)
            requires
                0 <= i < n,
                0 <= width,
        ;
        assert(n * width <= usize::MAX);
        out.push(read_sample(data, i * width, bits, is_float));
        i = i + 1;
    }
    assert(out@ =~= samples(data@, bits as int, is_float));
    Some(out)
}

/// What is wrong with a file of that size.
pub fn refused_size(len: u64) -> (r: Option<String>)
    ensures
        match r {
            Some(e) => len > MAX_AUDIO_BYTES && e@ == "文件超过 4 MB"@,
            None => len <= MAX_AUDIO_BYTES,
        },
{
    if len > MAX_AUDIO_BYTES {
        Some(String::from_str("文件超过 4 MB"))
    } else {
        None
    }
}

/// What is wrong with a sound file, where something is.
pub open spec fn fault(b: Seq<u8>) -> Option<Seq<char>> {
    match header(b) {
        Err(e) => Some(e),
        Ok(f) => match chunk(b, 12, DATA@) {
            None => Some("WAV 里没有 data 块"@),
            Some(d) => if readable(d.len() as int, f.bits as int, f.float, f.channels as int) {
                None
            } else {
                Some(
                    "不支持的位深/编码："@ + strings::digits(f.bits as nat) + " bit "@ + (if f.float {
                        "float"@
                    } else {
                        "PCM"@
                    }),
                )
            },
        },
    }
}

/// The sound that the bytes of a file hold, or what is wrong with them.
pub fn decode_wav(b: &[u8]) -> (r: Result<Audio, String>)
    ensures
        match r {
            Ok(a) => {
                &&& fault(b@) is None
                &&& header(b@) matches Ok(f) && a.rate == f.rate && a.channels == f.channels
                    && a.samples@ == samples(chunk(b@, 12, DATA@)->0, f.bits as int, f.float)
            },
            Err(e) => fault(b@) == Some(e@),
        },
{
    let f = match wav_format(b) {
        Ok(f) => f,
        Err(e) => {
            return Err(e);
        },
    };
    let data = match find_chunk(b, 12, &DATA) {
        Some(d) => d,
        None => {
            return Err(String::from_str("WAV 里没有 data 块"));
        },
    };
    match decode_pcm(data, f.bits, f.float, f.channels) {
        Some(samples) => Ok(Audio { samples, rate: f.rate, channels: f.channels }),
        None => {
            let mut e = String::from_str("不支持的位深/编码：");
            push_number(&mut e, f.bits as u64);
            e.append(" bit ");
            e.append(
                if f.float {
                    "float"
                } else {
                    "PCM"
                },
            );
            Err(e)
        },
    }
}

// ---- how loud ----

/// A sample at a volume of 100: in steps of a 256th, and without what is behind the point.
pub open spec fn at_volume(s: int, volume: int) -> int {
    let g = volume * 256 / 100;
    if volume >= 100 {
        s
    } else if s < 0 {
        -(-s * g / 256)
    } else {
        s * g / 256
    }
}

/// Brings samples to a volume of 100; what is above that is 100.
pub fn scale_volume(samples: &mut [i16], volume: u8)
    ensures
        final(samples)@.len() == old(samples)@.len(),
        forall|i: int|
            0 <= i < old(samples)@.len() ==> #[trigger] final(samples)@[i] == at_volume(
                old(samples)@[i] as int,
                volume as int,
            ),
{
    if volume >= 100 {
        return;
    }
    let g: i32 = volume as i32 * 256 / 100;
    let n: usize = samples.len();
    let mut i: usize = 0;
    while i < n
        invariant
            i <= n == samples@.len() == old(samples)@.len(),
            volume < 100,
            g == volume * 256 / 100,
            0 <= g <= 253,
            forall|k: int|
                0 <= k < i ==> #[trigger] samples@[k] == at_volume(
                    old(samples)@[k] as int,
                    volume as int,
                ),
            forall|k: int| i <= k < n ==> #[trigger] samples@[k] == old(samples)@[k],
        decreases n - i,
    {
        let s: i32 = samples[i] as i32;
        let size: i32 = if s < 0 {
            -s
        } else {
            s
        };
        assert(0 <= size * g <= 32_768 * 253) by (nonlinear_arith)
            requires
                0 <= size <= 32_768,
                0 <= g <= 253,
        ;
        let out: i32 = size * g / 256;
        proof {
            let e = old(samples)@[i as int] as int;
            if e < 0 {
                assert(-e * (volume as int * 256 / 100) == size * g);
            }
        }
        samples[i] = if s < 0 {
            (-out) as i16
        } else {
            out as i16
        };
        i = i + 1;
    }
}

/// A volume makes no sample louder than it was and turns none over, and without any there is
/// silence.
pub proof fn law_volume_only_lowers(s: int, volume: int)
    requires
        i16::MIN <= s <= i16::MAX,
        0 <= volume,
    ensures
        s >= 0 ==> 0 <= at_volume(s, volume) <= s,
        s <= 0 ==> s <= at_volume(s, volume) <= 0,
        volume == 0 ==> at_volume(s, volume) == 0,
        volume >= 100 ==> at_volume(s, volume) == s,
{
    let g = volume * 256 / 100;
    let size = if s < 0 {
        -s
    } else {
        s
    };
    if volume < 100 {
        assert(0 <= size * g <= size * 256) by (nonlinear_arith)
            requires
                0 <= size,
                0 <= g <= 256,
        ;
        if volume == 0 {
            assert(size * g == 0) by (nonlinear_arith)
                requires
                    g == 0,
            ;
        }
    }
}

/// Where the part of the samples that is written next ends: at most 2048 frames of them.
pub fn block_end(done: usize, total: usize, channels: u32) -> (r: usize)
    requires
        done <= total,
    ensures
        r == (if done + channels * 2048 < total {
            done + channels * 2048
        } else {
            total as int
        }),
{
    let block: u64 = channels as u64 * 2048;
    if (total - done) as u64 > block {
        done + block as usize
    } else {
        total
    }
}

/// A sample of a recording is its value in sixteen bits: of more bits the highest sixteen, rounded
/// down, and of eight bits, which are written with 128 for silence, as high as they reach.
pub proof fn law_samples_keep_their_value(b: Seq<u8>, at: int, v: int)
    requires
        0 <= at,
    ensures
        at < b.len() && -128 <= v < 128 && b[at] == v + 128 ==> sample(b, at, 8, false) == 256 * v,
        at + 2 <= b.len() && -0x8000 <= v < 0x8000 && b[at] == v % 0x100 && b[at + 1] == v / 0x100 % 0x100
            ==> sample(b, at, 16, false) == v,
        at + 3 <= b.len() && -0x80_0000 <= v < 0x80_0000 && b[at] == v % 0x100 && b[at + 1] == v / 0x100
            % 0x100 && b[at + 2] == v / 0x1_0000 % 0x100 ==> sample(b, at, 24, false) == v / 0x100,
        at + 4 <= b.len() && -0x8000_0000 <= v < 0x8000_0000 && b[at] == v % 0x100 && b[at + 1] == v
            / 0x100 % 0x100 && b[at + 2] == v / 0x1_0000 % 0x100 && b[at + 3] == v / 0x100_0000 % 0x100
            ==> sample(b, at, 32, false) == v / 0x1_0000,
{
}

/// The number between 0 and 1 that is `m` times 2 to the power of `-k` makes as large a part of the
/// loudest sample, but for a step.
pub proof fn law_floats_are_parts_of_full(m: int, e: int)
    requires
        0 <= m < 0x80_0000,
        111 <= e < 127,
    ensures
        ({
            let s = single_size(e * 0x80_0000 + m);
            let unit = power2::pow2((150 - e) as nat);
            (s - 1) * unit <= (0x80_0000 + m) * 32_767 <= (s + 2) * unit
        }),
{
    let mag = e * 0x80_0000 + m;
    assert(mag / 0x80_0000 == e && mag % 0x80_0000 == m);
    let full = ((0x80_0000 + m) * 32_767) as nat;
    let k = (150 - e) as nat;
    let unit = power2::pow2(k) as int;
    power2::lemma2_to64();
    if k > 24 {
        power2::lemma_pow2_strictly_increases(24, k);
    }
    single::law_rounding_is_small(full);
    let r = single::rounded(full, 1) as int;
    let s = r / unit;
    vstd::arithmetic::div_mod::lemma_fundamental_div_mod(r, unit);
    assert(s * unit == unit * s && (s - 1) * unit == unit * s - unit && (s + 2) * unit == unit * s + 2
        * unit) by (nonlinear_arith);
}

/// A number from 1 on makes the loudest sample, one below a step silence, and what is no number
/// silence too; and a number and its negative make opposite samples.
pub proof fn law_floats_at_the_ends(mag: int)
    requires
        0 <= mag < 0x8000_0000,
    ensures
        0x3f80_0000 <= mag <= 0x7f80_0000 ==> single_size(mag) == 32_767,
        mag < 0x3780_0000 ==> single_size(mag) == 0,
        mag > 0x7f80_0000 ==> single_size(mag) == 0,
        forall|b: Seq<u8>, c: Seq<u8>, at: int|
            #![trigger sample(b, at, 32, true), sample(c, at, 32, true)]
            bytes::le32(b, at) == mag && bytes::le32(c, at) == mag + 0x8000_0000 ==> sample(
                c,
                at,
                32,
                true,
            ) == -sample(b, at, 32, true) && sample(b, at, 32, true) == single_size(mag),
{
}

/// A sample at a volume is that part of a hundred of it, but for what the steps of a 256th lose.
pub proof fn law_volume_is_a_share(s: int, volume: int)
    requires
        0 <= s <= 0x8000,
        0 <= volume <= 100,
    ensures
        100 * at_volume(s, volume) <= s * volume <= 100 * at_volume(s, volume) + 100 + s,
        at_volume(-s, volume) == -at_volume(s, volume),
{
    let g = volume * 256 / 100;
    if volume < 100 {
        let n = s * g;
        assert(100 * n <= s * volume * 256 <= 100 * n + 100 * s) by (nonlinear_arith)
            requires
                0 <= s,
                100 * g <= volume * 256 < 100 * g + 100,
                n == s * g,
        ;
        assert(-(-s) * g == s * g) by (nonlinear_arith);
        let sv = s * volume;
        assert(s * volume * 256 == 256 * sv);
    }
    assert(s * 100 == 100 * s);
}

/// A chunk is found behind those with other names, each of which takes an even number of bytes.
pub proof fn law_chunks_are_passed_over(b: Seq<u8>, from: int, tag: Seq<u8>, n: int)
    requires
        0 <= from,
        from + 8 <= b.len(),
        n == b[from + 4] + 0x100 * b[from + 5] + 0x1_0000 * b[from + 6] + 0x100_0000 * b[from + 7],
    ensures
        b.subrange(from, from + 4) == tag && from + 8 + n <= b.len() ==> chunk(b, from, tag) == Some(
            b.subrange(from + 8, from + 8 + n),
        ),
        b.subrange(from, from + 4) != tag && from + 8 + n + n % 2 <= b.len() ==> chunk(b, from, tag)
            == chunk(b, from + 8 + n + n % 2, tag),
        from + 8 + n > b.len() ==> chunk(b, from, tag) is None,
{
}

/// The samples of a recording follow each other, each of as many bytes as it takes.
pub proof fn law_samples_follow(data: Seq<u8>, bits: int, float: bool, i: int)
    requires
        known_format(bits, float),
        0 <= i < samples(data, bits, float).len(),
    ensures
        samples(data, bits, float).len() * bits <= 8 * data.len() < (samples(data, bits, float).len() + 1)
            * bits,
        -0x8000 <= sample(data, i * bits / 8, bits, float) < 0x8000 ==> samples(data, bits, float)[i]
            == sample(data, i * bits / 8, bits, float),
{
    let n = bits / 8;
    assert(bits == 8 * n);
    assert(i * bits == 8 * (i * n)) by (nonlinear_arith)
        requires
            bits == 8 * n,
    ;
    let len = data.len() as int;
    let q = len / n;
    vstd::arithmetic::div_mod::lemma_fundamental_div_mod(len, n);
    assert(q * bits == 8 * (n * q) && (q + 1) * bits == 8 * (n * q) + 8 * n) by (nonlinear_arith)
        requires
            bits == 8 * n,
    ;
}

/// What the header of a recording says: whether its samples are whole numbers or floats, its channels,
/// how many frames a second has, and how many bits a sample, each low byte first.
pub proof fn law_header_fields(b: Seq<u8>)
    ensures
        header(b) matches Ok(f) ==> (chunk(b, 12, FMT@) matches Some(c) && c.len() >= 16 && {
            let v = |i: int| c[i] + 0x100 * c[i + 1];
            &&& v(0) == 1 || v(0) == 3
            &&& f.float <==> v(0) == 3
            &&& f.channels == v(2)
            &&& 1 <= f.channels <= 8
            &&& f.rate == v(4) + 0x1_0000 * v(6)
            &&& 8000 <= f.rate <= 192_000
            &&& f.bits == v(14)
        }),
{
}

} // verus!
