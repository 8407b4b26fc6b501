//! What a compressor writes as DEFLATE is what is read from it: the codes, the marks for bytes and
//! repetitions, and the blocks.
use crate::bits;
use crate::inflate;
use crate::inflate::{DIST_BASE, DIST_EXTRA, LEN_BASE, LEN_EXTRA, ORDER};
use vstd::arithmetic::power2;
use vstd::prelude::*;

verus! {

// ---- bits ----

/// The digit of a number that counts for 2 to the power of `k`.
pub open spec fn digit(x: int, k: int) -> int {
    x / (power2::pow2(k as nat) as int) % 2
}

/// The `n` lowest digits of a number, the lowest first.
pub open spec fn low_first(x: int, n: int) -> Seq<int> {
    Seq::new(n as nat, |i: int| digit(x, i))
}

/// The `n` lowest digits of a number, the highest first.
pub open spec fn high_first(x: int, n: int) -> Seq<int> {
    Seq::new(n as nat, |i: int| digit(x, n - 1 - i))
}

/// Whether these bits stand in the data from the bit `p` on, each byte with its lowest bit first.
pub open spec fn holds(data: Seq<u8>, p: int, written: Seq<int>) -> bool {
    &&& 0 <= p
    &&& p + written.len() <= data.len() * 8
    &&& forall|i: int|
        0 <= i < written.len() ==> digit(data[(p + i) / 8] as int, (p + i) % 8) == #[trigger] written[i]
}

pub proof fn lemma_bit_is_digit(data: Seq<u8>, p: int)
    requires
        0 <= p < data.len() * 8,
    ensures
        bits::bit_at(data, p) == digit(data[p / 8] as int, p % 8),
{
    let b: u8 = data[p / 8];
    power2::lemma2_to64();
    assert((b >> 0u8) & 1 == b % 2 && (b >> 1u8) & 1 == (b / 2) % 2 && (b >> 2u8) & 1 == (b / 4) % 2
        && (b >> 3u8) & 1 == (b / 8) % 2 && (b >> 4u8) & 1 == (b / 16) % 2 && (b >> 5u8) & 1 == (b
        / 32) % 2 && (b >> 6u8) & 1 == (b / 64) % 2 && (b >> 7u8) & 1 == (b / 128) % 2)
        by (bit_vector);
    let s = (p % 8) as u8;
    if s == 0 {
        assert((b >> s) & 1 == (b >> 0u8) & 1);
        assert(digit(b as int, 0) == (b / 1) % 2);
    } else if s == 1 {
        assert((b >> s) & 1 == (b >> 1u8) & 1);
        assert(digit(b as int, 1) == (b / 2) % 2);
    } else if s == 2 {
        assert((b >> s) & 1 == (b >> 2u8) & 1);
        assert(digit(b as int, 2) == (b / 4) % 2);
    } else if s == 3 {
        assert((b >> s) & 1 == (b >> 3u8) & 1);
        assert(digit(b as int, 3) == (b / 8) % 2);
    } else if s == 4 {
        assert((b >> s) & 1 == (b >> 4u8) & 1);
        assert(digit(b as int, 4) == (b / 16) % 2);
    } else if s == 5 {
        assert((b >> s) & 1 == (b >> 5u8) & 1);
        assert(digit(b as int, 5) == (b / 32) % 2);
    } else if s == 6 {
        assert((b >> s) & 1 == (b >> 6u8) & 1);
        assert(digit(b as int, 6) == (b / 64) % 2);
    } else {
        assert((b >> s) & 1 == (b >> 7u8) & 1);
        assert(digit(b as int, 7) == (b / 128) % 2);
    }
}

pub proof fn lemma_holds_parts(data: Seq<u8>, p: int, a: Seq<int>, b: Seq<int>)
    requires
        holds(data, p, a + b),
    ensures
        holds(data, p, a),
        holds(data, p + a.len(), b),
{
    let all = a + b;
    assert forall|i: int| 0 <= i < a.len() implies digit(data[(p + i) / 8] as int, (p + i) % 8)
        == #[trigger] a[i] by {
        assert(all[i] == a[i]);
    }
    let q = p + a.len();
    assert forall|i: int| 0 <= i < b.len() implies digit(data[(q + i) / 8] as int, (q + i) % 8)
        == #[trigger] b[i] by {
        assert(all[a.len() + i] == b[i]);
        assert(q + i == p + (a.len() + i));
    }
}

/// Half of a number with one digit fewer.
proof fn lemma_halves(x: int, k: nat)
    requires
        x >= 0,
    ensures
        x / (power2::pow2(k) as int) == 2 * (x / (power2::pow2(k + 1) as int)) + digit(x, k as int),
{
    power2::lemma_pow2_pos(k);
    power2::lemma_pow2_unfold(k + 1);
    let h = power2::pow2(k) as int;
    vstd::arithmetic::div_mod::lemma_div_denominator(x, h, 2);
    assert(h * 2 == power2::pow2(k + 1));
    vstd::arithmetic::div_mod::lemma_fundamental_div_mod(x / h, 2);
}

/// A number that is written with its lowest digit first is read.
pub proof fn lemma_number_is_read(data: Seq<u8>, p: int, x: int, n: nat)
    requires
        0 <= x < power2::pow2(n),
        holds(data, p, low_first(x, n as int)),
    ensures
        bits::bits_value(data, p, n) == x,
{
    lemma_low_digits(data, p, x, n, n);
    power2::lemma_pow2_pos(n);
    vstd::arithmetic::div_mod::lemma_small_mod(x as nat, power2::pow2(n));
}

proof fn lemma_low_digits(data: Seq<u8>, p: int, x: int, n: nat, k: nat)
    requires
        0 <= x,
        k <= n,
        holds(data, p, low_first(x, n as int)),
    ensures
        bits::bits_value(data, p, k) == x % (power2::pow2(k) as int),
    decreases k,
{
    power2::lemma2_to64();
    if k == 0 {
        assert(x % 1 == 0);
    } else {
        let j = (k - 1) as nat;
        lemma_low_digits(data, p, x, n, j);
        lemma_bit_is_digit(data, p + j);
        assert(low_first(x, n as int)[j as int] == digit(x, j as int));
        lemma_halves(x, j);
        power2::lemma_pow2_pos(j);
        power2::lemma_pow2_unfold(k);
        let (h, w) = (power2::pow2(j) as int, power2::pow2(k) as int);
        let d = digit(x, j as int);
        vstd::arithmetic::div_mod::lemma_fundamental_div_mod(x, h);
        vstd::arithmetic::div_mod::lemma_fundamental_div_mod(x, w);
        assert(x % w == x % h + d * h) by (nonlinear_arith)
            requires
                x == h * (x / h) + x % h,
                x == w * (x / w) + x % w,
                x / h == 2 * (x / w) + d,
                w == 2 * h,
        ;
    }
}

/// The first `k` bits of a code that is written with its highest digit first.
proof fn lemma_code_prefix(data: Seq<u8>, p: int, c: int, l: nat, k: nat)
    requires
        0 <= c < power2::pow2(l),
        k <= l,
        holds(data, p, high_first(c, l as int)),
    ensures
        inflate::code_value(data, p, k as int) == c / (power2::pow2((l - k) as nat) as int),
    decreases k,
{
    power2::lemma_pow2_pos(l);
    if k == 0 {
        vstd::arithmetic::div_mod::lemma_basic_div(c, power2::pow2(l) as int);
    } else {
        let j = (k - 1) as nat;
        lemma_code_prefix(data, p, c, l, j);
        lemma_bit_is_digit(data, p + j);
        assert(high_first(c, l as int)[j as int] == digit(c, l - k));
        lemma_halves(c, (l - k) as nat);
    }
}

// ---- codes ----

/// The code of a symbol: the first of its length, and one more for each symbol of that length before.
pub open spec fn code_of(lengths: Seq<u8>, sym: int) -> int {
    let l = lengths[sym] as int;
    (inflate::first_code(lengths, l) + inflate::count_of(lengths.take(sym), l)) as int
}

/// Whether a symbol has a code.
pub open spec fn has_code(lengths: Seq<u8>, sym: int) -> bool {
    0 <= sym < lengths.len() && 1 <= lengths[sym] <= 15
}

/// The bits of a symbol's code.
pub open spec fn code_bits(lengths: Seq<u8>, sym: int) -> Seq<int> {
    high_first(code_of(lengths, sym), lengths[sym] as int)
}

/// Whether the code of `a` comes before that of `b`: it is shorter, or as long and for an earlier
/// symbol.
pub open spec fn comes_before(lengths: Seq<u8>, a: int, b: int) -> bool {
    lengths[a] < lengths[b] || (lengths[a] == lengths[b] && a < b)
}

proof fn lemma_count_between(lengths: Seq<u8>, l: int, a: int, b: int)
    requires
        0 <= a <= b <= lengths.len(),
        forall|c: int| a <= c < b ==> #[trigger] lengths[c] != l,
    ensures
        inflate::count_of(lengths.take(b), l) == inflate::count_of(lengths.take(a), l),
    decreases b - a,
{
    if a < b {
        lemma_count_between(lengths, l, a, b - 1);
        assert(lengths.take(b).drop_last() =~= lengths.take(b - 1));
        assert(lengths.take(b).last() == lengths[b - 1]);
    }
}

proof fn lemma_count_step(lengths: Seq<u8>, a: int)
    requires
        0 <= a < lengths.len(),
    ensures
        inflate::count_of(lengths.take(a + 1), lengths[a] as int) == inflate::count_of(
            lengths.take(a),
            lengths[a] as int,
        ) + 1,
{
    assert(lengths.take(a + 1).drop_last() =~= lengths.take(a));
}

proof fn lemma_first_codes(lengths: Seq<u8>, l: int, m: int)
    requires
        1 <= l < m,
        forall|k: int| l < k < m ==> #[trigger] inflate::count_of(lengths, k) == 0,
    ensures
        inflate::first_code(lengths, m) == (inflate::first_code(lengths, l) + inflate::count_of(
            lengths,
            l,
        )) * power2::pow2((m - l) as nat),
    decreases m - l,
{
    power2::lemma2_to64();
    if m > l + 1 {
        lemma_first_codes(lengths, l, m - 1);
        power2::lemma_pow2_unfold((m - l) as nat);
        let (c, h) = (
            inflate::first_code(lengths, l) + inflate::count_of(lengths, l),
            power2::pow2((m - 1 - l) as nat),
        );
        assert(c * h * 2 == c * (2 * h)) by (nonlinear_arith);
    }
}

/// The codes are handed out in order: the first is all zeros, and each next one is one more, with
/// zeros behind it where it is longer.
pub proof fn law_codes_are_in_order(lengths: Seq<u8>, a: int, b: int)
    requires
        has_code(lengths, a),
        has_code(lengths, b),
        comes_before(lengths, a, b),
        forall|c: int|
            has_code(lengths, c) ==> !(#[trigger] comes_before(lengths, a, c) && comes_before(
                lengths,
                c,
                b,
            )),
    ensures
        code_of(lengths, b) == (code_of(lengths, a) + 1) * power2::pow2(
            (lengths[b] - lengths[a]) as nat,
        ),
{
    let (l, m) = (lengths[a] as int, lengths[b] as int);
    power2::lemma2_to64();
    lemma_count_step(lengths, a);
    if l == m {
        assert forall|c: int| a + 1 <= c < b implies #[trigger] lengths[c] != l by {
            if lengths[c] == l {
                assert(has_code(lengths, c));
                assert(comes_before(lengths, a, c));
            }
        }
        lemma_count_between(lengths, l, a + 1, b);
        let one = power2::pow2((lengths[b] - lengths[a]) as nat);
        assert((code_of(lengths, a) + 1) * one == code_of(lengths, a) + 1) by (nonlinear_arith)
            requires
                one == 1,
        ;
    } else {
        assert forall|c: int| a + 1 <= c < lengths.len() implies #[trigger] lengths[c] != l by {
            if lengths[c] == l {
                assert(has_code(lengths, c));
                assert(comes_before(lengths, a, c));
            }
        }
        lemma_count_between(lengths, l, a + 1, lengths.len() as int);
        assert(lengths.take(lengths.len() as int) =~= lengths);
        assert(lengths.take(0) =~= Seq::<u8>::empty());
        assert forall|k: int| l < k < m implies #[trigger] inflate::count_of(lengths, k) == 0 by {
            assert forall|c: int| 0 <= c < lengths.len() implies #[trigger] lengths[c] != k by {
                if lengths[c] == k {
                    assert(has_code(lengths, c));
                    assert(comes_before(lengths, a, c));
                }
            }
            lemma_count_between(lengths, k, 0, lengths.len() as int);
        }
        assert forall|c: int| 0 <= c < b implies #[trigger] lengths[c] != m by {
            if lengths[c] == m {
                assert(has_code(lengths, c));
                assert(comes_before(lengths, a, c));
            }
        }
        lemma_count_between(lengths, m, 0, b);
        lemma_first_codes(lengths, l, m);
        assert(code_of(lengths, a) + 1 == inflate::first_code(lengths, l) + inflate::count_of(
            lengths,
            l,
        ));
        assert(code_of(lengths, b) == inflate::first_code(lengths, m));
    }
}

/// The first code is all zeros.
pub proof fn law_first_code_is_zero(lengths: Seq<u8>, a: int)
    requires
        has_code(lengths, a),
        forall|c: int| has_code(lengths, c) ==> !(#[trigger] comes_before(lengths, c, a)),
    ensures
        code_of(lengths, a) == 0,
{
    let l = lengths[a] as int;
    power2::lemma2_to64();
    assert(lengths.take(lengths.len() as int) =~= lengths);
    assert(lengths.take(0) =~= Seq::<u8>::empty());
    assert forall|k: int| 1 <= k < l implies #[trigger] inflate::count_of(lengths, k) == 0 by {
        assert forall|c: int| 0 <= c < lengths.len() implies #[trigger] lengths[c] != k by {
            if lengths[c] == k {
                assert(has_code(lengths, c));
                assert(comes_before(lengths, c, a));
            }
        }
        lemma_count_between(lengths, k, 0, lengths.len() as int);
    }
    assert forall|c: int| 0 <= c < a implies #[trigger] lengths[c] != l by {
        if lengths[c] == l {
            assert(has_code(lengths, c));
            assert(comes_before(lengths, c, a));
        }
    }
    lemma_count_between(lengths, l, 0, a);
    if l > 1 {
        lemma_first_codes(lengths, 1, l);
        assert(0 * power2::pow2((l - 1) as nat) == 0) by (nonlinear_arith);
    }
}

proof fn lemma_place(lengths: Seq<u8>, sym: int)
    requires
        lengths.len() <= 0xffff,
        0 <= sym < lengths.len(),
    ensures
        ({
            let l = lengths[sym] as int;
            let k = inflate::count_of(lengths.take(sym), l) as int;
            k < inflate::count_of(lengths, l) && inflate::symbols_of(lengths, l)[k] == sym
        }),
    decreases lengths.len(),
{
    let front = lengths.drop_last();
    if sym == lengths.len() - 1 {
        assert(lengths.take(sym) =~= front);
    } else {
        lemma_place(front, sym);
        assert(front.take(sym) =~= lengths.take(sym));
    }
}

/// Longer codes are beyond those of `k` bits.
proof fn lemma_beyond(lengths: Seq<u8>, k: int, l: int)
    requires
        1 <= k < l,
    ensures
        inflate::first_code(lengths, l) >= (inflate::first_code(lengths, k) + inflate::count_of(
            lengths,
            k,
        )) * power2::pow2((l - k) as nat),
    decreases l - k,
{
    power2::lemma2_to64();
    if l > k + 1 {
        lemma_beyond(lengths, k, l - 1);
        power2::lemma_pow2_unfold((l - k) as nat);
        let (c, h) = (
            inflate::first_code(lengths, k) + inflate::count_of(lengths, k),
            power2::pow2((l - 1 - k) as nat),
        );
        assert(c * h * 2 == c * (2 * h)) by (nonlinear_arith);
    }
}

proof fn lemma_kraft_grows(lengths: Seq<u8>, l: int)
    requires
        0 <= l <= 15,
    ensures
        inflate::kraft(lengths, l) <= inflate::kraft(lengths, 15),
    decreases 15 - l,
{
    if l < 15 {
        lemma_kraft_grows(lengths, l + 1);
    }
}

proof fn lemma_first_code_room(lengths: Seq<u8>, l: int)
    requires
        1 <= l <= 15,
    ensures
        inflate::first_code(lengths, l) * power2::pow2((15 - l) as nat) == inflate::kraft(
            lengths,
            l - 1,
        ),
    decreases l,
{
    let h = power2::pow2((15 - l) as nat);
    if l == 1 {
        assert(0 * h == 0) by (nonlinear_arith);
    } else {
        lemma_first_code_room(lengths, l - 1);
        power2::lemma_pow2_unfold((16 - l) as nat);
        let (f, c) = (
            inflate::first_code(lengths, l - 1),
            inflate::count_of(lengths, l - 1),
        );
        assert((f + c) * 2 * h == f * (2 * h) + c * (2 * h)) by (nonlinear_arith);
    }
}

/// Where no code is given out twice, each has no more digits than its length.
pub proof fn lemma_codes_fit(lengths: Seq<u8>, sym: int)
    requires
        lengths.len() <= 0xffff,
        inflate::valid_code(lengths),
        has_code(lengths, sym),
    ensures
        0 <= code_of(lengths, sym) < power2::pow2(lengths[sym] as nat),
{
    let l = lengths[sym] as int;
    lemma_first_code_room(lengths, l);
    lemma_kraft_grows(lengths, l);
    lemma_place(lengths, sym);
    power2::lemma2_to64();
    power2::lemma_pow2_adds(l as nat, (15 - l) as nat);
    power2::lemma_pow2_pos((15 - l) as nat);
    let (f, c, h, w) = (
        inflate::first_code(lengths, l) as int,
        inflate::count_of(lengths, l) as int,
        power2::pow2((15 - l) as nat) as int,
        power2::pow2(l as nat) as int,
    );
    assert(f + c <= w) by (nonlinear_arith)
        requires
            f * h + c * h <= w * h,
            h > 0,
    ;
}

/// Each symbol is read where its code is written.
pub proof fn law_code_is_read(lengths: Seq<u8>, data: Seq<u8>, p: int, sym: int)
    requires
        lengths.len() <= 0xffff,
        inflate::valid_code(lengths),
        has_code(lengths, sym),
        holds(data, p, code_bits(lengths, sym)),
    ensures
        inflate::symbol_at(lengths, data, p) == Some((sym, p + lengths[sym])),
{
    lemma_codes_fit(lengths, sym);
    lemma_read_from(lengths, data, p, sym, 1);
}

proof fn lemma_read_from(lengths: Seq<u8>, data: Seq<u8>, p: int, sym: int, k: int)
    requires
        lengths.len() <= 0xffff,
        has_code(lengths, sym),
        code_of(lengths, sym) < power2::pow2(lengths[sym] as nat),
        holds(data, p, code_bits(lengths, sym)),
        1 <= k <= lengths[sym],
    ensures
        inflate::symbol_from(lengths, data, p, k) == Some((sym, p + lengths[sym])),
    decreases lengths[sym] - k,
{
    let l = lengths[sym] as int;
    let c = code_of(lengths, sym);
    power2::lemma2_to64();
    lemma_code_prefix(data, p, c, l as nat, k as nat);
    if k == l {
        lemma_place(lengths, sym);
        assert(c / 1 == c);
    } else {
        lemma_beyond(lengths, k, l);
        let h = power2::pow2((l - k) as nat) as int;
        power2::lemma_pow2_pos((l - k) as nat);
        let e = (inflate::first_code(lengths, k) + inflate::count_of(lengths, k)) as int;
        assert(c / h >= e) by (nonlinear_arith)
            requires
                c >= e * h,
                h > 0,
        ;
        lemma_read_from(lengths, data, p, sym, k + 1);
    }
}

/// The fixed codes. Bytes below 144 have the eight bits from 00110000 on and the other bytes the nine
/// bits from 110010000 on; the end of a block and the first lengths have the seven bits from 0000000
/// on, and the last lengths the eight bits from 11000000 on. Distances have five bits.
pub proof fn law_fixed_codes(sym: int)
    ensures
        0 <= sym < 144 ==> inflate::fixed_lit()[sym] == 8 && code_of(inflate::fixed_lit(), sym) == 0x30
            + sym,
        144 <= sym < 256 ==> inflate::fixed_lit()[sym] == 9 && code_of(inflate::fixed_lit(), sym)
            == 0x190 + (sym - 144),
        256 <= sym < 280 ==> inflate::fixed_lit()[sym] == 7 && code_of(inflate::fixed_lit(), sym) == sym
            - 256,
        280 <= sym < 288 ==> inflate::fixed_lit()[sym] == 8 && code_of(inflate::fixed_lit(), sym)
            == 0xc0 + (sym - 280),
        0 <= sym < 30 ==> inflate::fixed_dist()[sym] == 5 && code_of(inflate::fixed_dist(), sym) == sym,
        inflate::valid_code(inflate::fixed_lit()),
        inflate::valid_code(inflate::fixed_dist()),
{
    let (a, d) = (inflate::fixed_lit(), inflate::fixed_dist());
    inflate::lemma_fixed_codes();
    assert(a.take(288) =~= a);
    assert(d.take(30) =~= d);
    assert forall|l: int| #![trigger inflate::count_of(a, l)] 0 <= l <= 8 implies inflate::count_of(a, l)
        == (if l == 7 {
        24
    } else if l == 8 {
        152int
    } else {
        0
    }) by {
        inflate::lemma_fixed_lit_counts(288, l);
    }
    assert forall|l: int| #![trigger inflate::count_of(d, l)] 0 <= l <= 4 implies inflate::count_of(d, l)
        == 0 by {
        inflate::lemma_fixed_dist_counts(30, l);
    }
    reveal_with_fuel(inflate::first_code, 10);
    assert(inflate::first_code(a, 7) == 0);
    assert(inflate::first_code(a, 8) == 48);
    assert(inflate::first_code(a, 9) == 400);
    assert(inflate::first_code(d, 5) == 0);
    if 0 <= sym < 288 {
        inflate::lemma_fixed_lit_counts(sym, a[sym] as int);
    }
    if 0 <= sym < 30 {
        inflate::lemma_fixed_dist_counts(sym, 5);
    }
}

// ---- repetitions ----

/// A repetition leaves what was there, and each byte that it adds is the one `d` before it.
pub proof fn law_repetition_copies(out: Seq<u8>, d: int, n: int)
    requires
        1 <= d <= out.len(),
        0 <= n,
    ensures
        inflate::repeated(out, d, n).len() == out.len() + n,
        forall|i: int| 0 <= i < out.len() ==> #[trigger] inflate::repeated(out, d, n)[i] == out[i],
        forall|i: int|
            out.len() <= i < out.len() + n ==> #[trigger] inflate::repeated(out, d, n)[i]
                == inflate::repeated(out, d, n)[i - d],
    decreases n,
{
    if n > 0 {
        law_repetition_copies(out, d, n - 1);
    }
}

/// `out` and then its last `d` bytes, over and over, until `n` bytes are added.
pub open spec fn copied(out: Seq<u8>, d: int, n: int) -> Seq<u8> {
    out + Seq::new(n as nat, |i: int| out[out.len() - d + i % d])
}

/// A repetition goes through the last `d` bytes over and over.
pub proof fn law_repetition_is_periodic(out: Seq<u8>, d: int, n: int)
    requires
        1 <= d <= out.len(),
        0 <= n,
    ensures
        inflate::repeated(out, d, n) == copied(out, d, n),
    decreases n,
{
    if n == 0 {
        assert(copied(out, d, 0) =~= out);
    } else {
        law_repetition_is_periodic(out, d, n - 1);
        let before = copied(out, d, n - 1);
        let k = n - 1;
        if k < d {
            vstd::arithmetic::div_mod::lemma_small_mod(k as nat, d as nat);
        } else {
            vstd::arithmetic::div_mod::lemma_mod_sub_multiples_vanish(k, d);
        }
        assert(before[before.len() - d] == out[out.len() - d + k % d]);
        assert(before.push(before[before.len() - d]) =~= copied(out, d, n));
    }
}

/// How many bits follow the length symbol `s`, which is written as 257 more: four symbols to each
/// number of bits, and none for the last symbol.
pub open spec fn length_bits(s: int) -> int {
    if s < 4 || s >= 28 {
        0
    } else {
        s / 4 - 1
    }
}

/// The shortest length of that symbol: the first is 3, each symbol begins where the one before it
/// ends, and the last stands for 258 alone.
pub open spec fn least_length(s: int) -> int
    decreases s,
{
    if s <= 0 {
        3
    } else if s >= 28 {
        258
    } else {
        least_length(s - 1) + power2::pow2(length_bits(s - 1) as nat)
    }
}

/// How many bits follow the distance symbol `s`: two symbols to each number of bits.
pub open spec fn distance_bits(s: int) -> int {
    if s < 2 {
        0
    } else {
        s / 2 - 1
    }
}

/// The shortest distance of that symbol: the first is 1, and each symbol begins where the one before
/// it ends.
pub open spec fn least_distance(s: int) -> int
    decreases s,
{
    if s <= 0 {
        1
    } else {
        least_distance(s - 1) + power2::pow2(distance_bits(s - 1) as nat)
    }
}

spec fn length_ends(s: int) -> int {
    LEN_BASE@[s] + power2::pow2(LEN_EXTRA@[s] as nat)
}

spec fn distance_ends(s: int) -> int {
    DIST_BASE@[s] + power2::pow2(DIST_EXTRA@[s] as nat)
}

/// What the symbols for lengths stand for.
pub proof fn law_length_symbols(s: int)
    requires
        0 <= s < 29,
    ensures
        LEN_BASE@[s] == least_length(s),
        LEN_EXTRA@[s] == length_bits(s),
    decreases s,
{
    assert(forall|k: int| 0 <= k < 29 ==> #[trigger] LEN_EXTRA@[k] == length_bits(k));
    if 0 < s {
        law_length_symbols(s - 1);
        assert(LEN_EXTRA@[s - 1] == length_bits(s - 1));
        power2::lemma2_to64();
        assert(forall|k: int| 0 <= k < 14 ==> #[trigger] length_ends(k) == LEN_BASE@[k + 1]);
        assert(forall|k: int| 14 <= k < 27 ==> #[trigger] length_ends(k) == LEN_BASE@[k + 1]);
        if s < 28 {
            assert(length_ends(s - 1) == LEN_BASE@[s]);
        }
    }
}

/// What the symbols for distances stand for.
pub proof fn law_distance_symbols(s: int)
    requires
        0 <= s < 30,
    ensures
        DIST_BASE@[s] == least_distance(s),
        DIST_EXTRA@[s] == distance_bits(s),
    decreases s,
{
    assert(forall|k: int| 0 <= k < 30 ==> #[trigger] DIST_EXTRA@[k] == distance_bits(k));
    if 0 < s {
        law_distance_symbols(s - 1);
        assert(DIST_EXTRA@[s - 1] == distance_bits(s - 1));
        power2::lemma2_to64();
        assert(forall|k: int| 0 <= k < 15 ==> #[trigger] distance_ends(k) == DIST_BASE@[k + 1]);
        assert(forall|k: int| 15 <= k < 29 ==> #[trigger] distance_ends(k) == DIST_BASE@[k + 1]);
        assert(distance_ends(s - 1) == DIST_BASE@[s]);
    }
}

/// The symbol up to `s` that a length is written with.
pub open spec fn length_symbol_upto(n: int, s: int) -> int
    decreases s,
{
    if s <= 0 || least_length(s) <= n {
        s
    } else {
        length_symbol_upto(n, s - 1)
    }
}

/// The symbol that a length is written with: the last that begins no later.
pub open spec fn length_symbol(n: int) -> int {
    length_symbol_upto(n, 28)
}

/// The symbol up to `s` that a distance is written with.
pub open spec fn distance_symbol_upto(n: int, s: int) -> int
    decreases s,
{
    if s <= 0 || least_distance(s) <= n {
        s
    } else {
        distance_symbol_upto(n, s - 1)
    }
}

/// The symbol that a distance is written with: the last that begins no later.
pub open spec fn distance_symbol(n: int) -> int {
    distance_symbol_upto(n, 29)
}

/// Each length up to 258 has a symbol, and the rest fits in the bits that follow it.
pub proof fn law_every_length_can_be_written(n: int)
    requires
        3 <= n <= 258,
    ensures
        0 <= length_symbol(n) < 29,
        0 <= n - least_length(length_symbol(n)) < power2::pow2(length_bits(length_symbol(n)) as nat),
{
    power2::lemma2_to64();
    lemma_length_symbol(n, 28);
}

proof fn lemma_length_symbol(n: int, s: int)
    requires
        3 <= n,
        0 <= s <= 28,
        n < least_length(s) + power2::pow2(length_bits(s) as nat),
    ensures
        0 <= length_symbol_upto(n, s) <= s,
        0 <= n - least_length(length_symbol_upto(n, s)) < power2::pow2(
            length_bits(length_symbol_upto(n, s)) as nat,
        ),
    decreases s,
{
    if s > 0 && least_length(s) > n {
        if s == 28 {
            law_length_symbols(27);
            power2::lemma2_to64();
        }
        lemma_length_symbol(n, s - 1);
    }
}

/// Each distance up to 32768 has a symbol, and the rest fits in the bits that follow it.
pub proof fn law_every_distance_can_be_written(n: int)
    requires
        1 <= n <= 32_768,
    ensures
        0 <= distance_symbol(n) < 30,
        0 <= n - least_distance(distance_symbol(n)) < power2::pow2(
            distance_bits(distance_symbol(n)) as nat,
        ),
{
    power2::lemma2_to64();
    law_distance_symbols(29);
    lemma_distance_symbol(n, 29);
}

proof fn lemma_distance_symbol(n: int, s: int)
    requires
        1 <= n,
        0 <= s <= 29,
        n < least_distance(s) + power2::pow2(distance_bits(s) as nat),
    ensures
        0 <= distance_symbol_upto(n, s) <= s,
        0 <= n - least_distance(distance_symbol_upto(n, s)) < power2::pow2(
            distance_bits(distance_symbol_upto(n, s)) as nat,
        ),
    decreases s,
{
    if s > 0 && least_distance(s) > n {
        lemma_distance_symbol(n, s - 1);
    }
}

// ---- marks ----

/// What a compressor writes: a byte, or a repetition of so many bytes from so far before.
pub enum Mark {
    Byte(u8),
    Copy(u16, u16),
}

/// What a mark adds.
pub open spec fn with_mark(out: Seq<u8>, m: Mark) -> Seq<u8> {
    match m {
        Mark::Byte(b) => out.push(b),
        Mark::Copy(n, d) => copied(out, d as int, n as int),
    }
}

/// What marks add, one after the other.
pub open spec fn with_marks(out: Seq<u8>, marks: Seq<Mark>) -> Seq<u8>
    decreases marks.len(),
{
    if marks.len() == 0 {
        out
    } else {
        with_marks(with_mark(out, marks[0]), marks.drop_first())
    }
}

/// Whether a mark can be written behind `out` with these codes: lengths go from 3 to 258, distances
/// to 32768 and no further back than there are bytes, and its symbols have codes.
pub open spec fn can_write(lit: Seq<u8>, dist: Seq<u8>, out: Seq<u8>, m: Mark) -> bool {
    match m {
        Mark::Byte(b) => has_code(lit, b as int),
        Mark::Copy(n, d) => {
            &&& 3 <= n <= 258
            &&& 1 <= d <= 32_768
            &&& d <= out.len()
            &&& has_code(lit, 257 + length_symbol(n as int))
            &&& has_code(dist, distance_symbol(d as int))
        },
    }
}

/// Whether marks can be written one after the other.
pub open spec fn can_write_all(lit: Seq<u8>, dist: Seq<u8>, out: Seq<u8>, marks: Seq<Mark>) -> bool
    decreases marks.len(),
{
    marks.len() == 0 || (can_write(lit, dist, out, marks[0]) && can_write_all(
        lit,
        dist,
        with_mark(out, marks[0]),
        marks.drop_first(),
    ))
}

/// The bits of a length: its symbol, and how much longer it is than the shortest of that symbol.
pub open spec fn length_written(lit: Seq<u8>, n: int) -> Seq<int> {
    let s = length_symbol(n);
    code_bits(lit, 257 + s) + low_first(n - least_length(s), length_bits(s))
}

/// The bits of a distance.
pub open spec fn distance_written(dist: Seq<u8>, d: int) -> Seq<int> {
    let s = distance_symbol(d);
    code_bits(dist, s) + low_first(d - least_distance(s), distance_bits(s))
}

/// The bits of a mark.
pub open spec fn mark_bits(lit: Seq<u8>, dist: Seq<u8>, m: Mark) -> Seq<int> {
    match m {
        Mark::Byte(b) => code_bits(lit, b as int),
        Mark::Copy(n, d) => length_written(lit, n as int) + distance_written(dist, d as int),
    }
}

/// The bits of marks, and the end of the block behind them.
pub open spec fn marks_bits(lit: Seq<u8>, dist: Seq<u8>, marks: Seq<Mark>) -> Seq<int>
    decreases marks.len(),
{
    if marks.len() == 0 {
        code_bits(lit, 256)
    } else {
        mark_bits(lit, dist, marks[0]) + marks_bits(lit, dist, marks.drop_first())
    }
}

proof fn lemma_marks_grow(out: Seq<u8>, marks: Seq<Mark>)
    ensures
        with_marks(out, marks).len() >= out.len(),
    decreases marks.len(),
{
    if marks.len() > 0 {
        lemma_marks_grow(with_mark(out, marks[0]), marks.drop_first());
    }
}

proof fn lemma_copy_is_read(lit: Seq<u8>, dist: Seq<u8>, data: Seq<u8>, p: int, n: int, d: int)
    requires
        dist.len() <= 0xffff,
        inflate::valid_code(dist),
        3 <= n <= 258,
        1 <= d <= 32_768,
        has_code(lit, 257 + length_symbol(n)),
        has_code(dist, distance_symbol(d)),
        holds(data, p, length_written(lit, n) + distance_written(dist, d)),
    ensures
        inflate::repetition(
            dist,
            data,
            length_symbol(n),
            p + code_bits(lit, 257 + length_symbol(n)).len(),
        ) == Some((n, d, p + (length_written(lit, n) + distance_written(dist, d)).len())),
{
    let (s, t) = (length_symbol(n), distance_symbol(d));
    law_every_length_can_be_written(n);
    law_every_distance_can_be_written(d);
    law_length_symbols(s);
    law_distance_symbols(t);
    let (a, b) = (code_bits(lit, 257 + s), low_first(n - least_length(s), length_bits(s)));
    let (e, f) = (code_bits(dist, t), low_first(d - least_distance(t), distance_bits(t)));
    lemma_holds_parts(data, p, a + b, e + f);
    lemma_holds_parts(data, p, a, b);
    lemma_holds_parts(data, p + (a + b).len(), e, f);
    lemma_number_is_read(data, p + a.len(), n - least_length(s), length_bits(s) as nat);
    law_code_is_read(dist, data, p + (a + b).len(), t);
    lemma_number_is_read(
        data,
        p + (a + b).len() + e.len(),
        d - least_distance(t),
        distance_bits(t) as nat,
    );
}

/// Marks that are written with two codes are read: the block holds what they add.
pub proof fn law_marks_are_read(
    lit: Seq<u8>,
    dist: Seq<u8>,
    data: Seq<u8>,
    p: int,
    out: Seq<u8>,
    max: int,
    marks: Seq<Mark>,
)
    requires
        lit.len() <= 0xffff,
        dist.len() <= 0xffff,
        inflate::valid_code(lit),
        inflate::valid_code(dist),
        has_code(lit, 256),
        can_write_all(lit, dist, out, marks),
        holds(data, p, marks_bits(lit, dist, marks)),
        with_marks(out, marks).len() <= max,
    ensures
        inflate::codes(lit, dist, data, p, out, max) == Some(
            (with_marks(out, marks), p + marks_bits(lit, dist, marks).len()),
        ),
    decreases marks.len(),
{
    if marks.len() == 0 {
        law_code_is_read(lit, data, p, 256);
    } else {
        let m = marks[0];
        let rest = marks.drop_first();
        let bits_here = mark_bits(lit, dist, m);
        lemma_holds_parts(data, p, bits_here, marks_bits(lit, dist, rest));
        lemma_marks_grow(with_mark(out, m), rest);
        match m {
            Mark::Byte(b) => {
                law_code_is_read(lit, data, p, b as int);
            },
            Mark::Copy(n, d) => {
                let s = length_symbol(n as int);
                law_every_length_can_be_written(n as int);
                lemma_holds_parts(
                    data,
                    p,
                    length_written(lit, n as int),
                    distance_written(dist, d as int),
                );
                lemma_holds_parts(
                    data,
                    p,
                    code_bits(lit, 257 + s),
                    low_first(n - least_length(s), length_bits(s)),
                );
                law_code_is_read(lit, data, p, 257 + s);
                lemma_copy_is_read(lit, dist, data, p, n as int, d as int);
                law_repetition_is_periodic(out, d as int, n as int);
            },
        }
        law_marks_are_read(
            lit,
            dist,
            data,
            p + bits_here.len(),
            with_mark(out, m),
            max,
            rest,
        );
    }
}

// ---- a block's own codes ----

/// The place of a length's length among the lengths of the code for lengths: the three repetitions
/// first, then 0, then outward from 8 and 7.
pub open spec fn place_of(v: int) -> int {
    if v >= 16 {
        v - 16
    } else if v == 0 {
        3
    } else if v >= 8 {
        4 + 2 * (v - 8)
    } else {
        5 + 2 * (7 - v)
    }
}

/// The order of the lengths of the code for lengths is the one of those places.
pub proof fn law_order_of_lengths(i: int)
    requires
        0 <= i < 19,
    ensures
        ORDER@[i] < 19,
        place_of(ORDER@[i] as int) == i,
        0 <= place_of(i) < 19,
        ORDER@[place_of(i)] == i,
{
    assert(forall|k: int| 0 <= k < 19 ==> (#[trigger] ORDER@[k]) < 19 && place_of(ORDER@[k] as int) == k);
    assert(forall|v: int| 0 <= v < 19 ==> 0 <= #[trigger] place_of(v) < 19 && ORDER@[place_of(v)] == v);
}

/// The first `k` lengths of the code for lengths, three bits each.
pub open spec fn length_code_bits(code: Seq<u8>, k: int) -> Seq<int>
    decreases k,
{
    if k <= 0 {
        Seq::<int>::empty()
    } else {
        length_code_bits(code, k - 1) + low_first(code[ORDER@[k - 1] as int] as int, 3)
    }
}

proof fn lemma_length_code_bits(code: Seq<u8>, k: int)
    requires
        k >= 0,
    ensures
        length_code_bits(code, k).len() == 3 * k,
    decreases k,
{
    if k > 0 {
        lemma_length_code_bits(code, k - 1);
    }
}

proof fn lemma_length_code(code: Seq<u8>, data: Seq<u8>, p: int, k: int)
    requires
        code.len() == 19,
        forall|v: int| 0 <= v < 19 ==> #[trigger] code[v] <= 7,
        0 <= k <= 19,
        holds(data, p, length_code_bits(code, k)),
    ensures
        inflate::length_code(data, p, k).len() == 19,
        forall|v: int|
            0 <= v < 19 ==> #[trigger] inflate::length_code(data, p, k)[v] == (if place_of(v) < k {
                code[v]
            } else {
                0
            }),
    decreases k,
{
    if k == 0 {
        assert forall|v: int| 0 <= v < 19 implies place_of(v) >= 0 by {
            law_order_of_lengths(v);
        }
    } else {
        let at = ORDER@[k - 1] as int;
        law_order_of_lengths(k - 1);
        lemma_length_code_bits(code, k - 1);
        lemma_holds_parts(data, p, length_code_bits(code, k - 1), low_first(code[at] as int, 3));
        lemma_length_code(code, data, p, k - 1);
        power2::lemma2_to64();
        lemma_number_is_read(data, p + 3 * (k - 1), code[at] as int, 3);
        assert forall|v: int| 0 <= v < 19 implies #[trigger] inflate::length_code(data, p, k)[v] == (
        if place_of(v) < k {
            code[v]
        } else {
            0
        }) by {
            law_order_of_lengths(v);
            if v != at {
                assert(place_of(v) != k - 1);
            }
        }
    }
}

/// How the lengths of a block's codes are written: a length, the last one so many times again, or so
/// many zeros.
pub enum LengthMark {
    Length(u8),
    Again(u8),
    Zeros(u8),
}

/// What such a mark adds.
pub open spec fn with_length(have: Seq<u8>, m: LengthMark) -> Seq<u8> {
    match m {
        LengthMark::Length(l) => have.push(l),
        LengthMark::Again(n) => have + Seq::new(n as nat, |i: int| have.last()),
        LengthMark::Zeros(n) => have + Seq::new(n as nat, |i: int| 0u8),
    }
}

/// What such marks add, one after the other.
pub open spec fn with_lengths(have: Seq<u8>, marks: Seq<LengthMark>) -> Seq<u8>
    decreases marks.len(),
{
    if marks.len() == 0 {
        have
    } else {
        with_lengths(with_length(have, marks[0]), marks.drop_first())
    }
}

/// Whether such a mark can be written: a length goes to 15, the last one can come 3 to 6 times again,
/// and there are 3 to 138 zeros.
pub open spec fn can_write_length(code: Seq<u8>, have: Seq<u8>, m: LengthMark) -> bool {
    match m {
        LengthMark::Length(l) => l <= 15 && has_code(code, l as int),
        LengthMark::Again(n) => 3 <= n <= 6 && have.len() > 0 && has_code(code, 16),
        LengthMark::Zeros(n) => (3 <= n <= 10 && has_code(code, 17)) || (11 <= n <= 138 && has_code(
            code,
            18,
        )),
    }
}

/// Whether such marks can be written one after the other.
pub open spec fn can_write_lengths(code: Seq<u8>, have: Seq<u8>, marks: Seq<LengthMark>) -> bool
    decreases marks.len(),
{
    marks.len() == 0 || (can_write_length(code, have, marks[0]) && can_write_lengths(
        code,
        with_length(have, marks[0]),
        marks.drop_first(),
    ))
}

/// The bits of such a mark.
pub open spec fn length_mark_bits(code: Seq<u8>, m: LengthMark) -> Seq<int> {
    match m {
        LengthMark::Length(l) => code_bits(code, l as int),
        LengthMark::Again(n) => code_bits(code, 16) + low_first(n - 3, 2),
        LengthMark::Zeros(n) => if n <= 10 {
            code_bits(code, 17) + low_first(n - 3, 3)
        } else {
            code_bits(code, 18) + low_first(n - 11, 7)
        },
    }
}

/// The bits of such marks.
pub open spec fn lengths_bits(code: Seq<u8>, marks: Seq<LengthMark>) -> Seq<int>
    decreases marks.len(),
{
    if marks.len() == 0 {
        Seq::<int>::empty()
    } else {
        length_mark_bits(code, marks[0]) + lengths_bits(code, marks.drop_first())
    }
}

proof fn lemma_lengths_grow(code: Seq<u8>, have: Seq<u8>, marks: Seq<LengthMark>)
    requires
        can_write_lengths(code, have, marks),
    ensures
        with_lengths(have, marks).len() >= have.len() + marks.len(),
    decreases marks.len(),
{
    if marks.len() > 0 {
        lemma_lengths_grow(code, with_length(have, marks[0]), marks.drop_first());
    }
}

/// Lengths that are written are read.
pub proof fn law_lengths_are_read(
    code: Seq<u8>,
    data: Seq<u8>,
    p: int,
    have: Seq<u8>,
    marks: Seq<LengthMark>,
)
    requires
        code.len() <= 0xffff,
        inflate::valid_code(code),
        can_write_lengths(code, have, marks),
        holds(data, p, lengths_bits(code, marks)),
    ensures
        inflate::lengths_from(code, data, p, have, with_lengths(have, marks).len() as int) == Some(
            (with_lengths(have, marks), p + lengths_bits(code, marks).len()),
        ),
    decreases marks.len(),
{
    if marks.len() > 0 {
        let m = marks[0];
        let rest = marks.drop_first();
        let next = with_length(have, m);
        let bits_here = length_mark_bits(code, m);
        lemma_holds_parts(data, p, bits_here, lengths_bits(code, rest));
        lemma_lengths_grow(code, have, marks);
        lemma_lengths_grow(code, next, rest);
        power2::lemma2_to64();
        match m {
            LengthMark::Length(l) => {
                law_code_is_read(code, data, p, l as int);
            },
            LengthMark::Again(n) => {
                lemma_holds_parts(data, p, code_bits(code, 16), low_first(n - 3, 2));
                law_code_is_read(code, data, p, 16);
                lemma_number_is_read(data, p + code_bits(code, 16).len(), n - 3, 2);
                assert(inflate::extended(have, have.last(), n as int) =~= next);
            },
            LengthMark::Zeros(n) => {
                if n <= 10 {
                    lemma_holds_parts(data, p, code_bits(code, 17), low_first(n - 3, 3));
                    law_code_is_read(code, data, p, 17);
                    lemma_number_is_read(data, p + code_bits(code, 17).len(), n - 3, 3);
                } else {
                    lemma_holds_parts(data, p, code_bits(code, 18), low_first(n - 11, 7));
                    law_code_is_read(code, data, p, 18);
                    lemma_number_is_read(data, p + code_bits(code, 18).len(), n - 11, 7);
                }
                assert(inflate::extended(have, 0, n as int) =~= next);
            },
        }
        law_lengths_are_read(code, data, p + bits_here.len(), next, rest);
    }
}

/// The bits in front of a block's marks that bring its own codes: how many lengths each code has, the
/// `k` lengths of the code for lengths, and the lengths of both codes in one run.
pub open spec fn own_codes_bits(
    lit: Seq<u8>,
    dist: Seq<u8>,
    code: Seq<u8>,
    k: int,
    marks: Seq<LengthMark>,
) -> Seq<int> {
    low_first(lit.len() - 257, 5) + low_first(dist.len() - 1, 5) + low_first(k - 4, 4)
        + length_code_bits(code, k) + lengths_bits(code, marks)
}

/// The codes that a block brings with it are read.
pub proof fn law_own_codes_are_read(
    lit: Seq<u8>,
    dist: Seq<u8>,
    code: Seq<u8>,
    k: int,
    marks: Seq<LengthMark>,
    data: Seq<u8>,
    p: int,
)
    requires
        257 <= lit.len() <= 288,
        1 <= dist.len() <= 32,
        inflate::valid_code(lit),
        inflate::valid_code(dist),
        code.len() == 19,
        inflate::valid_code(code),
        forall|v: int| 0 <= v < 19 ==> #[trigger] code[v] <= 7,
        4 <= k <= 19,
        forall|v: int| 0 <= v < 19 && place_of(v) >= k ==> #[trigger] code[v] == 0,
        can_write_lengths(code, Seq::empty(), marks),
        with_lengths(Seq::empty(), marks) == lit + dist,
        holds(data, p, own_codes_bits(lit, dist, code, k, marks)),
    ensures
        inflate::own_codes(data, p) == Some(
            (lit, dist, p + own_codes_bits(lit, dist, code, k, marks).len()),
        ),
{
    let a = low_first(lit.len() - 257, 5);
    let b = low_first(dist.len() - 1, 5);
    let c = low_first(k - 4, 4);
    let e = length_code_bits(code, k);
    let f = lengths_bits(code, marks);
    lemma_length_code_bits(code, k);
    lemma_holds_parts(data, p, a + b + c + e, f);
    lemma_holds_parts(data, p, a + b + c, e);
    lemma_holds_parts(data, p, a + b, c);
    lemma_holds_parts(data, p, a, b);
    power2::lemma2_to64();
    lemma_number_is_read(data, p, lit.len() - 257, 5);
    lemma_number_is_read(data, p + 5, dist.len() - 1, 5);
    lemma_number_is_read(data, p + 10, k - 4, 4);
    lemma_length_code(code, data, p + 14, k);
    assert(inflate::length_code(data, p + 14, k) =~= code);
    law_lengths_are_read(code, data, p + 14 + 3 * k, Seq::empty(), marks);
    let all = lit + dist;
    assert(all.subrange(0, lit.len() as int) =~= lit);
    assert(all.subrange(lit.len() as int, all.len() as int) =~= dist);
}

// ---- blocks ----

/// The bits for the kinds of blocks.
proof fn lemma_kinds()
    ensures
        low_first(0, 2) == seq![0int, 0],
        low_first(1, 2) == seq![1int, 0],
        low_first(2, 2) == seq![0int, 1],
        power2::pow2(2) == 4,
{
    power2::lemma2_to64();
    let (one, two) = (power2::pow2(0) as int, power2::pow2(1) as int);
    assert(one == 1 && two == 2);
    assert(0int / one % 2 == 0 && 0int / two % 2 == 0);
    assert(1int / one % 2 == 1 && 1int / two % 2 == 0);
    assert(2int / one % 2 == 0 && 2int / two % 2 == 1);
    assert(low_first(0, 2) =~= seq![0int, 0]);
    assert(low_first(1, 2) =~= seq![1int, 0]);
    assert(low_first(2, 2) =~= seq![0int, 1]);
}

/// A block in the fixed codes is read.
pub proof fn law_fixed_block_is_read(
    data: Seq<u8>,
    p: int,
    out: Seq<u8>,
    max: int,
    marks: Seq<Mark>,
)
    requires
        can_write_all(inflate::fixed_lit(), inflate::fixed_dist(), out, marks),
        holds(
            data,
            p,
            seq![1int, 0] + marks_bits(inflate::fixed_lit(), inflate::fixed_dist(), marks),
        ),
        with_marks(out, marks).len() <= max,
    ensures
        inflate::block(data, p, out, max) == Some(
            (
                with_marks(out, marks),
                p + 2 + marks_bits(inflate::fixed_lit(), inflate::fixed_dist(), marks).len(),
            ),
        ),
{
    lemma_kinds();
    law_fixed_codes(256);
    let rest = marks_bits(inflate::fixed_lit(), inflate::fixed_dist(), marks);
    lemma_holds_parts(data, p, low_first(1, 2), rest);
    lemma_number_is_read(data, p, 1, 2);
    law_marks_are_read(
        inflate::fixed_lit(),
        inflate::fixed_dist(),
        data,
        p + 2,
        out,
        max,
        marks,
    );
}

/// A block with its own codes is read.
pub proof fn law_own_block_is_read(
    lit: Seq<u8>,
    dist: Seq<u8>,
    code: Seq<u8>,
    k: int,
    lengths: Seq<LengthMark>,
    data: Seq<u8>,
    p: int,
    out: Seq<u8>,
    max: int,
    marks: Seq<Mark>,
)
    requires
        257 <= lit.len() <= 288,
        1 <= dist.len() <= 32,
        inflate::valid_code(lit),
        inflate::valid_code(dist),
        code.len() == 19,
        inflate::valid_code(code),
        forall|v: int| 0 <= v < 19 ==> #[trigger] code[v] <= 7,
        4 <= k <= 19,
        forall|v: int| 0 <= v < 19 && place_of(v) >= k ==> #[trigger] code[v] == 0,
        can_write_lengths(code, Seq::empty(), lengths),
        with_lengths(Seq::empty(), lengths) == lit + dist,
        has_code(lit, 256),
        can_write_all(lit, dist, out, marks),
        holds(
            data,
            p,
            seq![0int, 1] + own_codes_bits(lit, dist, code, k, lengths) + marks_bits(lit, dist, marks),
        ),
        with_marks(out, marks).len() <= max,
    ensures
        inflate::block(data, p, out, max) == Some(
            (
                with_marks(out, marks),
                p + 2 + own_codes_bits(lit, dist, code, k, lengths).len() + marks_bits(
                    lit,
                    dist,
                    marks,
                ).len(),
            ),
        ),
{
    lemma_kinds();
    let head = own_codes_bits(lit, dist, code, k, lengths);
    let rest = marks_bits(lit, dist, marks);
    lemma_holds_parts(data, p, low_first(2, 2) + head, rest);
    lemma_holds_parts(data, p, low_first(2, 2), head);
    lemma_number_is_read(data, p, 2, 2);
    law_own_codes_are_read(lit, dist, code, k, lengths, data, p + 2);
    law_marks_are_read(lit, dist, data, p + 2 + head.len(), out, max, marks);
}

/// A block of plain bytes is read: from the next whole byte `k` on their number, low byte first, the
/// same with each bit turned over, and the bytes.
pub proof fn law_plain_block_is_read(
    data: Seq<u8>,
    p: int,
    out: Seq<u8>,
    max: int,
    k: int,
    bytes: Seq<u8>,
)
    requires
        holds(data, p, seq![0int, 0]),
        p + 2 <= 8 * k < p + 10,
        bytes.len() < 0x1_0000,
        k + 4 + bytes.len() <= data.len(),
        data[k] == bytes.len() % 256,
        data[k + 1] == bytes.len() / 256,
        data[k + 2] == 255 - data[k],
        data[k + 3] == 255 - data[k + 1],
        data.subrange(k + 4, k + 4 + bytes.len()) == bytes,
        out.len() + bytes.len() <= max,
    ensures
        inflate::block(data, p, out, max) == Some((out + bytes, 8 * (k + 4 + bytes.len()))),
{
    lemma_kinds();
    lemma_number_is_read(data, p, 0, 2);
}

/// Whether blocks follow each other: each begins with a bit that says whether it is the last, and
/// makes of what came before what comes after.
pub open spec fn blocks_follow(
    data: Seq<u8>,
    max: int,
    starts: Seq<int>,
    texts: Seq<Seq<u8>>,
) -> bool {
    &&& starts.len() == texts.len() >= 2
    &&& forall|i: int|
        0 <= i < starts.len() - 1 ==> {
            &&& holds(
                data,
                #[trigger] starts[i],
                seq![
                    if i == starts.len() - 2 {
                        1int
                    } else {
                        0int
                    },
                ],
            )
            &&& inflate::block(data, starts[i] + 1, texts[i], max) == Some(
                (texts[i + 1], starts[i + 1]),
            )
        }
}

/// Blocks are read until the one that says that it is the last.
pub proof fn law_blocks_are_read(
    data: Seq<u8>,
    max: int,
    starts: Seq<int>,
    texts: Seq<Seq<u8>>,
)
    requires
        blocks_follow(data, max, starts, texts),
        starts[0] == 0,
        texts[0] == Seq::<u8>::empty(),
    ensures
        inflate::inflated(data, max) == Some(texts.last()),
{
    lemma_blocks_from(data, max, starts, texts, 0);
}

proof fn lemma_blocks_from(
    data: Seq<u8>,
    max: int,
    starts: Seq<int>,
    texts: Seq<Seq<u8>>,
    i: int,
)
    requires
        blocks_follow(data, max, starts, texts),
        0 <= i < starts.len() - 1,
    ensures
        inflate::blocks(data, starts[i], texts[i], max) == Some(texts.last()),
    decreases starts.len() - i,
{
    let p = starts[i];
    let b = seq![
        if i == starts.len() - 2 {
            1int
        } else {
            0int
        },
    ];
    assert(holds(data, p, b));
    assert(b[0] == digit(data[(p + 0) / 8] as int, (p + 0) % 8));
    lemma_bit_is_digit(data, p);
    if i < starts.len() - 2 {
        lemma_blocks_from(data, max, starts, texts, i + 1);
    }
}

/// What a compressor writes as one block in the fixed codes is what is read.
pub proof fn law_fixed_stream_is_read(data: Seq<u8>, max: int, marks: Seq<Mark>)
    requires
        can_write_all(
            inflate::fixed_lit(),
            inflate::fixed_dist(),
            Seq::empty(),
            marks,
        ),
        holds(
            data,
            0,
            seq![1int, 1, 0] + marks_bits(inflate::fixed_lit(), inflate::fixed_dist(), marks),
        ),
        with_marks(Seq::empty(), marks).len() <= max,
    ensures
        inflate::inflated(data, max) == Some(with_marks(Seq::empty(), marks)),
{
    let rest = marks_bits(inflate::fixed_lit(), inflate::fixed_dist(), marks);
    assert(seq![1int, 1, 0] + rest =~= seq![1int] + (seq![1int, 0] + rest));
    lemma_holds_parts(data, 0, seq![1int], seq![1int, 0] + rest);
    law_fixed_block_is_read(data, 1, Seq::empty(), max, marks);
    let starts = seq![0int, 3int + rest.len()];
    let texts = seq![Seq::<u8>::empty(), with_marks(Seq::empty(), marks)];
    law_blocks_are_read(data, max, starts, texts);
}

/// The wrapping of a stream is taken off: two bytes in front, of which the first says that it is
/// DEFLATE and the second that no dictionary is needed, and four behind it.
pub proof fn law_wrapping_is_taken_off(a: u8, b: u8, stream: Seq<u8>, check: Seq<u8>)
    requires
        check.len() == 4,
    ensures
        inflate::unwrapped(seq![a, b] + stream + check) == (if a % 16 == 8 && b / 32 % 2 == 0 {
            Some(stream)
        } else {
            None
        }),
{
    let z = seq![a, b] + stream + check;
    assert(a & 0x0f == a % 16 && (b & 0x20 != 0 <==> b / 32 % 2 == 1)) by (bit_vector);
    assert(z.subrange(2, z.len() - 4) =~= stream);
}

} // verus!
