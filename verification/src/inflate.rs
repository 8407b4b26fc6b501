//! DEFLATE: blocks of plain bytes, and blocks of Huffman codes for bytes and for repetitions of
//! what came before.
use crate::bits;
use crate::bits::{two_to, Bits};
use vstd::arithmetic::power2;
use vstd::prelude::*;

verus! {

// ---- Huffman codes ----

/// The symbols whose codes have `l` bits, in order.
pub open spec fn symbols_of(lengths: Seq<u8>, l: int) -> Seq<u16>
    decreases lengths.len(),
{
    if lengths.len() == 0 {
        Seq::<u16>::empty()
    } else {
        let front = symbols_of(lengths.drop_last(), l);
        if lengths.last() == l {
            front.push((lengths.len() - 1) as u16)
        } else {
            front
        }
    }
}

/// How many codes have `l` bits.
pub open spec fn count_of(lengths: Seq<u8>, l: int) -> nat {
    symbols_of(lengths, l).len()
}

/// The first code of `l` bits: codes of one length follow each other, and shorter ones come first.
pub open spec fn first_code(lengths: Seq<u8>, l: int) -> nat
    decreases l,
{
    if l <= 1 {
        0
    } else {
        (first_code(lengths, l - 1) + count_of(lengths, l - 1)) * 2
    }
}

/// How much of the codes of 15 bits the codes of up to `l` bits take up.
pub open spec fn kraft(lengths: Seq<u8>, l: int) -> nat
    decreases l,
{
    if l <= 0 {
        0
    } else {
        kraft(lengths, l - 1) + count_of(lengths, l) * power2::pow2((15 - l) as nat)
    }
}

/// Whether the lengths make a code: none is over 15 bits, and no code is given out twice. Codes
/// that stand for nothing are allowed.
pub open spec fn valid_code(lengths: Seq<u8>) -> bool {
    &&& forall|i: int| 0 <= i < lengths.len() ==> #[trigger] lengths[i] <= 15
    &&& kraft(lengths, 15) <= 32_768
}

/// The number that the `l` bits from `p` on write, the highest first.
pub open spec fn code_value(data: Seq<u8>, p: int, l: int) -> nat
    decreases l,
{
    if l <= 0 {
        0
    } else {
        code_value(data, p, l - 1) * 2 + bits::bit_at(data, p + l - 1)
    }
}

/// The symbol whose code of at least `l` bits stands at the bit `p`, and where the code ends.
pub open spec fn symbol_from(lengths: Seq<u8>, data: Seq<u8>, p: int, l: int) -> Option<(int, int)>
    decreases 16 - l,
{
    let k = code_value(data, p, l) - first_code(lengths, l);
    if l > 15 || p + l > data.len() * 8 {
        None
    } else if 0 <= k < count_of(lengths, l) {
        Some((symbols_of(lengths, l)[k] as int, p + l))
    } else {
        symbol_from(lengths, data, p, l + 1)
    }
}

/// The symbol whose code stands at the bit `p`, and where the code ends.
pub open spec fn symbol_at(lengths: Seq<u8>, data: Seq<u8>, p: int) -> Option<(int, int)> {
    symbol_from(lengths, data, p, 1)
}

/// A table for a code: for each length the symbols whose codes have it.
pub struct Huff {
    by_len: Vec<Vec<u16>>,
}

impl Huff {
    /// Whether this is the table for the code with these lengths.
    pub closed spec fn is_table(self, lengths: Seq<u8>) -> bool {
        &&& self.by_len@.len() == 16
        &&& lengths.len() <= 0xffff
        &&& forall|l: int|
            1 <= l <= 15 ==> (#[trigger] self.by_len@[l])@ == symbols_of(lengths, l)
    }

    /// The table for the code with these lengths, 0 for a symbol without a code. `None` where they
    /// make no code.
    pub fn build(lengths: &[u8]) -> (r: Option<Self>)
        requires
            lengths@.len() <= 0xffff,
        ensures
            r is Some <==> valid_code(lengths@),
            r matches Some(h) ==> h.is_table(lengths@),
    {
        let ghost all = lengths@;
        let mut by_len: Vec<Vec<u16>> = Vec::new();
        let mut l: usize = 0;
        while l < 16
            invariant
                l <= 16,
                by_len@.len() == l,
                forall|j: int|
                    0 <= j < l ==> (#[trigger] by_len@[j])@ == symbols_of(all.take(0), j),
            decreases 16 - l,
        {
            let empty: Vec<u16> = Vec::new();
            assert(empty@ =~= symbols_of(all.take(0), l as int));
            by_len.push(empty);
            l = l + 1;
        }
        let mut i: usize = 0;
        while i < lengths.len()
            invariant
                i <= lengths@.len() <= 0xffff,
                all == lengths@,
                by_len@.len() == 16,
                forall|j: int|
                    0 <= j < 16 ==> (#[trigger] by_len@[j])@ == symbols_of(all.take(i as int), j),
                forall|j: int| 0 <= j < i ==> #[trigger] all[j] <= 15,
            decreases lengths@.len() - i,
        {
            let len: u8 = lengths[i];
            if len > 15 {
                assert(all[i as int] > 15);
                return None;
            }
            let ghost before = by_len@;
            proof {
                assert(all.take(i + 1).drop_last() =~= all.take(i as int));
                assert(all.take(i + 1).last() == len);
            }
            by_len[len as usize].push(i as u16);
            i = i + 1;
            assert forall|j: int| 0 <= j < 16 implies (#[trigger] by_len@[j])@ == symbols_of(
                all.take(i as int),
                j,
            ) by {
                assert(before[j]@ == symbols_of(all.take(i - 1), j));
            }
        }
        assert(all.take(all.len() as int) =~= all);
        let mut sum: u64 = 0;
        l = 1;
        while l < 16
            invariant
                1 <= l <= 16,
                by_len@.len() == 16,
                all.len() <= 0xffff,
                forall|j: int|
                    0 <= j < 16 ==> (#[trigger] by_len@[j])@ == symbols_of(all, j),
                sum == kraft(all, l - 1),
                sum <= (l - 1) * 0xffff * 0x8000,
            decreases 16 - l,
        {
            proof {
                lemma_count(all, l as int);
                power2::lemma2_to64();
                if l < 15 {
                    power2::lemma_pow2_strictly_increases((15 - l) as nat, 15);
                }
            }
            let n: u64 = by_len[l].len() as u64;
            let unit: u64 = two_to((15 - l) as u32) as u64;
            assert(n == count_of(all, l as int));
            assert(n * unit <= 0xffff * 0x8000) by (nonlinear_arith)
                requires
                    n <= 0xffff,
                    unit <= 0x8000,
            ;
            sum = sum + n * unit;
            l = l + 1;
        }
        if sum > 32_768 {
            return None;
        }
        Some(Huff { by_len })
    }

    /// The symbol whose code comes next.
    fn decode(&self, b: &mut Bits<'_>, Ghost(lengths): Ghost<Seq<u8>>) -> (r: Option<u16>)
        requires
            self.is_table(lengths),
            old(b).wf(),
        ensures
            final(b).wf(),
            final(b).data == old(b).data,
            match symbol_at(lengths, old(b).data@, old(b).pos()) {
                Some((sym, end)) => r == Some(sym as u16) && 0 <= sym < lengths.len()
                    && final(b).pos() == end && end > old(b).pos(),
                None => r is None,
            },
    {
        let ghost d = b.data@;
        let ghost p = b.pos();
        proof {
            power2::lemma2_to64();
        }
        let mut code: u64 = 0;
        let mut first: u64 = 0;
        let mut l: usize = 1;
        while l < 16
            invariant
                1 <= l <= 16,
                self.is_table(lengths),
                b.wf(),
                b.data == old(b).data,
                d == b.data@,
                p == old(b).pos(),
                b.pos() == p + l - 1,
                code == code_value(d, p, l - 1),
                first == first_code(lengths, l as int),
                code < power2::pow2((l - 1) as nat),
                first <= 0x1_0000 * power2::pow2(l as nat),
                2 * code >= first,
                symbol_at(lengths, d, p) == symbol_from(lengths, d, p, l as int),
            decreases 16 - l,
        {
            proof {
                power2::lemma2_to64();
                power2::lemma_pow2_unfold(l as nat);
                power2::lemma_pow2_unfold((l + 1) as nat);
                if l < 15 {
                    power2::lemma_pow2_strictly_increases(l as nat, 15);
                }
                bits::lemma_bit_at(d, p + l - 1);
                lemma_count(lengths, l as int);
            }
            let bit: u64 = match b.read_bit() {
                Some(v) => v as u64,
                None => {
                    return None;
                },
            };
            code = code * 2 + bit;
            let n: u64 = self.by_len[l].len() as u64;
            assert(n == count_of(lengths, l as int));
            if code - first < n {
                let k: usize = (code - first) as usize;
                let sym: u16 = self.by_len[l][k];
                proof {
                    lemma_symbols(lengths, l as int);
                    assert(symbols_of(lengths, l as int)[k as int] == sym);
                }
                return Some(sym);
            }
            first = (first + n) * 2;
            l = l + 1;
        }
        None
    }
}

/// There are no more codes of a length than there are symbols.
proof fn lemma_count(lengths: Seq<u8>, l: int)
    ensures
        count_of(lengths, l) <= lengths.len(),
    decreases lengths.len(),
{
    if lengths.len() > 0 {
        lemma_count(lengths.drop_last(), l);
    }
}

/// The symbols of a length are symbols that have it.
pub proof fn lemma_symbols(lengths: Seq<u8>, l: int)
    requires
        lengths.len() <= 0xffff,
    ensures
        forall|k: int|
            0 <= k < symbols_of(lengths, l).len() ==> (#[trigger] symbols_of(lengths, l)[k])
                < lengths.len() && lengths[symbols_of(lengths, l)[k] as int] == l,
    decreases lengths.len(),
{
    if lengths.len() > 0 {
        lemma_symbols(lengths.drop_last(), l);
        let front = symbols_of(lengths.drop_last(), l);
        assert forall|k: int| 0 <= k < symbols_of(lengths, l).len() implies (#[trigger] symbols_of(
            lengths,
            l,
        )[k]) < lengths.len() && lengths[symbols_of(lengths, l)[k] as int] == l by {
            if k < front.len() {
                assert(front[k] == symbols_of(lengths, l)[k]);
            }
        }
    }
}

/// The code that a symbol has: the first of its length, and one more for each symbol of that length
/// before it. What is read for a code is the symbol that has it.
pub proof fn law_symbol_has_the_code(lengths: Seq<u8>, data: Seq<u8>, p: int)
    requires
        lengths.len() <= 0xffff,
    ensures
        symbol_at(lengths, data, p) matches Some((sym, end)) ==> {
            let l = end - p;
            &&& 1 <= l <= 15
            &&& 0 <= sym < lengths.len()
            &&& lengths[sym] == l
            &&& code_value(data, p, l) == first_code(lengths, l) + count_of(
                lengths.take(sym),
                l,
            )
        },
{
    lemma_symbol_from(lengths, data, p, 1);
}

proof fn lemma_symbol_from(lengths: Seq<u8>, data: Seq<u8>, p: int, l0: int)
    requires
        lengths.len() <= 0xffff,
        1 <= l0 <= 16,
    ensures
        symbol_from(lengths, data, p, l0) matches Some((sym, end)) ==> {
            let l = end - p;
            &&& l0 <= l <= 15
            &&& 0 <= sym < lengths.len()
            &&& lengths[sym] == l
            &&& code_value(data, p, l) == first_code(lengths, l) + count_of(
                lengths.take(sym),
                l,
            )
        },
    decreases 16 - l0,
{
    if l0 <= 15 {
        let k = code_value(data, p, l0) - first_code(lengths, l0);
        if 0 <= k < count_of(lengths, l0) {
            lemma_symbols(lengths, l0);
            lemma_rank(lengths, l0, k);
        } else {
            lemma_symbol_from(lengths, data, p, l0 + 1);
        }
    }
}

/// As many symbols of a length come before one of them as its place among them says.
proof fn lemma_rank(lengths: Seq<u8>, l: int, k: int)
    requires
        lengths.len() <= 0xffff,
        0 <= k < count_of(lengths, l),
    ensures
        count_of(lengths.take(symbols_of(lengths, l)[k] as int), l) == k,
    decreases lengths.len(),
{
    lemma_symbols(lengths, l);
    let front = lengths.drop_last();
    let before = symbols_of(front, l);
    if k < before.len() {
        lemma_rank(front, l, k);
        lemma_symbols(front, l);
        let s = before[k] as int;
        assert(symbols_of(lengths, l)[k] == before[k]);
        assert(lengths.take(s) =~= front.take(s));
    } else {
        assert(lengths.last() == l);
        assert(lengths.take(lengths.len() - 1) =~= front);
    }
}

// ---- the blocks ----

/// The lengths for the symbols that stand for more than one.
pub const LEN_BASE: [u16; 29] = [
    3, 4, 5, 6, 7, 8, 9, 10, 11, 13, 15, 17, 19, 23, 27, 31, 35, 43, 51, 59, 67, 83, 99, 115, 131,
    163, 195, 227, 258,
];

/// How many bits follow such a symbol and add to its length.
pub const LEN_EXTRA: [u8; 29] = [
    0, 0, 0, 0, 0, 0, 0, 0, 1, 1, 1, 1, 2, 2, 2, 2, 3, 3, 3, 3, 4, 4, 4, 4, 5, 5, 5, 5, 0,
];

/// The distances for the symbols of the second code.
pub const DIST_BASE: [u16; 30] = [
    1, 2, 3, 4, 5, 7, 9, 13, 17, 25, 33, 49, 65, 97, 129, 193, 257, 385, 513, 769, 1025, 1537, 2049,
    3073, 4097, 6145, 8193, 12289, 16385, 24577,
];

/// How many bits follow such a symbol and add to its distance.
pub const DIST_EXTRA: [u8; 30] = [
    0, 0, 0, 0, 1, 1, 2, 2, 3, 3, 4, 4, 5, 5, 6, 6, 7, 7, 8, 8, 9, 9, 10, 10, 11, 11, 12, 12, 13,
    13,
];

/// The order in which the lengths of the code for lengths are written.
pub const ORDER: [usize; 19] = [16, 17, 18, 0, 8, 7, 9, 6, 10, 5, 11, 4, 12, 3, 13, 2, 14, 1, 15];

/// `out` with `n` more bytes, each a copy of the byte `d` before it.
pub open spec fn repeated(out: Seq<u8>, d: int, n: int) -> Seq<u8>
    decreases n,
{
    if n <= 0 {
        out
    } else {
        let before = repeated(out, d, n - 1);
        before.push(before[before.len() - d])
    }
}

/// A number behind a symbol: its base, and the value of its extra bits at `p`; and where they end.
pub open spec fn with_extra(base: int, extra: int, data: Seq<u8>, p: int) -> Option<(int, int)> {
    if p + extra > data.len() * 8 {
        None
    } else {
        Some((base + bits::bits_value(data, p, extra as nat), p + extra))
    }
}

/// The length and the distance of a repetition whose symbol `s` ends at `p`, and where they end.
pub open spec fn repetition(dist: Seq<u8>, data: Seq<u8>, s: int, p: int) -> Option<
    (int, int, int),
> {
    match with_extra(LEN_BASE@[s] as int, LEN_EXTRA@[s] as int, data, p) {
        None => None,
        Some((len, q)) => match symbol_at(dist, data, q) {
            None => None,
            Some((ds, q2)) => if ds >= 30 {
                None
            } else {
                match with_extra(DIST_BASE@[ds] as int, DIST_EXTRA@[ds] as int, data, q2) {
                    None => None,
                    Some((d, q3)) => Some((len, d, q3)),
                }
            },
        },
    }
}

/// What a block of codes from the bit `p` on makes of `out`, and where it ends. A symbol below 256
/// is a byte, 256 ends the block, and those above repeat earlier bytes. There are never more than
/// `max` bytes.
pub open spec fn codes(
    lit: Seq<u8>,
    dist: Seq<u8>,
    data: Seq<u8>,
    p: int,
    out: Seq<u8>,
    max: int,
) -> Option<(Seq<u8>, int)>
    decreases data.len() * 8 - p,
{
    proof {
        lemma_symbol_end(lit, data, p, 1);
        match symbol_at(lit, data, p) {
            Some((sym, q)) => {
                lemma_repetition_end(dist, data, sym - 257, q);
            },
            None => {},
        }
    }
    match symbol_at(lit, data, p) {
        None => None,
        Some((sym, q)) => if sym < 256 {
            if out.len() >= max {
                None
            } else {
                codes(lit, dist, data, q, out.push(sym as u8), max)
            }
        } else if sym == 256 {
            Some((out, q))
        } else if sym > 285 {
            None
        } else {
            match repetition(dist, data, sym - 257, q) {
                None => None,
                Some((len, d, q2)) => if d > out.len() || out.len() + len > max {
                    None
                } else {
                    codes(lit, dist, data, q2, repeated(out, d, len), max)
                },
            }
        },
    }
}

/// A code ends behind its beginning, and in the data.
pub proof fn lemma_symbol_end(lengths: Seq<u8>, data: Seq<u8>, p: int, l: int)
    requires
        l >= 1,
    ensures
        symbol_from(lengths, data, p, l) matches Some((sym, q)) ==> p < q <= data.len() * 8,
    decreases 16 - l,
{
    if l <= 15 {
        lemma_symbol_end(lengths, data, p, l + 1);
    }
}

/// A repetition ends no earlier than its symbol, and in the data.
pub proof fn lemma_repetition_end(dist: Seq<u8>, data: Seq<u8>, s: int, p: int)
    ensures
        repetition(dist, data, s, p) matches Some((len, d, q)) ==> p <= q <= data.len() * 8,
{
    match with_extra(LEN_BASE@[s] as int, LEN_EXTRA@[s] as int, data, p) {
        Some((len, q)) => {
            lemma_symbol_end(dist, data, q, 1);
        },
        None => {},
    }
}

/// A block of codes ends behind its beginning, and in the data.
pub proof fn lemma_codes_end(
    lit: Seq<u8>,
    dist: Seq<u8>,
    data: Seq<u8>,
    p: int,
    out: Seq<u8>,
    max: int,
)
    ensures
        codes(lit, dist, data, p, out, max) matches Some((more, q)) ==> p < q <= data.len() * 8,
    decreases data.len() * 8 - p,
{
    lemma_symbol_end(lit, data, p, 1);
    match symbol_at(lit, data, p) {
        None => {},
        Some((sym, q)) => {
            if sym < 256 {
                lemma_codes_end(lit, dist, data, q, out.push(sym as u8), max);
            } else if 256 < sym <= 285 {
                lemma_repetition_end(dist, data, sym - 257, q);
                match repetition(dist, data, sym - 257, q) {
                    None => {},
                    Some((len, d, q2)) => {
                        lemma_codes_end(lit, dist, data, q2, repeated(out, d, len), max);
                    },
                }
            }
        },
    }
}

/// The lengths of a code end no earlier than they begin.
pub proof fn lemma_lengths_end(code: Seq<u8>, data: Seq<u8>, p: int, have: Seq<u8>, total: int)
    ensures
        lengths_from(code, data, p, have, total) matches Some((all, q)) ==> p <= q && all.len()
            >= total && (have.len() <= total ==> all.len() == total),
    decreases data.len() * 8 - p,
{
    lemma_symbol_end(code, data, p, 1);
    if have.len() < total {
        match symbol_at(code, data, p) {
            None => {},
            Some((sym, q)) => {
                if sym <= 15 {
                    lemma_lengths_end(code, data, q, have.push(sym as u8), total);
                } else {
                    let run = if sym == 16 {
                        with_extra(3, 2, data, q)
                    } else if sym == 17 {
                        with_extra(3, 3, data, q)
                    } else {
                        with_extra(11, 7, data, q)
                    };
                    let v = if sym == 16 {
                        have.last()
                    } else {
                        0u8
                    };
                    match run {
                        None => {},
                        Some((n, q2)) => {
                            if have.len() + n <= total {
                                lemma_lengths_end(code, data, q2, extended(have, v, n), total);
                            }
                        },
                    }
                }
            },
        }
    }
}

/// A block ends behind its beginning, and in the data.
pub proof fn lemma_block_end(data: Seq<u8>, p: int, out: Seq<u8>, max: int)
    ensures
        block(data, p, out, max) matches Some((more, q)) ==> p < q <= data.len() * 8,
{
    lemma_codes_end(fixed_lit(), fixed_dist(), data, p + 2, out, max);
    match own_codes(data, p + 2) {
        None => {},
        Some((lit, dist, q)) => {
            lemma_codes_end(lit, dist, data, q, out, max);
            let hlit = 257 + bits::bits_value(data, p + 2, 5);
            let hdist = 1 + bits::bits_value(data, p + 7, 5);
            let hclen = 4 + bits::bits_value(data, p + 12, 4);
            lemma_lengths_end(
                length_code(data, p + 16, hclen as int),
                data,
                p + 16 + 3 * hclen,
                Seq::<u8>::empty(),
                (hlit + hdist) as int,
            );
        },
    }
}

/// The lengths of the fixed code for bytes and lengths.
pub open spec fn fixed_lit() -> Seq<u8> {
    Seq::new(
        288,
        |i: int|
            if i < 144 {
                8u8
            } else if i < 256 {
                9
            } else if i < 280 {
                7
            } else {
                8
            },
    )
}

/// The lengths of the fixed code for distances.
pub open spec fn fixed_dist() -> Seq<u8> {
    Seq::new(30, |i: int| 5u8)
}

/// The lengths of the code for lengths: `n` of them stand at `p`, three bits each.
pub open spec fn length_code(data: Seq<u8>, p: int, n: int) -> Seq<u8>
    decreases n,
{
    if n <= 0 {
        Seq::new(19, |i: int| 0u8)
    } else {
        length_code(data, p, n - 1).update(
            ORDER@[n - 1] as int,
            bits::bits_value(data, p + 3 * (n - 1), 3) as u8,
        )
    }
}

/// `have` with `n` more times `v`.
pub open spec fn extended(have: Seq<u8>, v: u8, n: int) -> Seq<u8> {
    have + Seq::new(n as nat, |i: int| v)
}

/// `total` lengths: `have`, and what the code at `p` adds. A symbol up to 15 is a length, 16
/// repeats the last one, and 17 and 18 stand for zeros. And where they end.
pub open spec fn lengths_from(
    code: Seq<u8>,
    data: Seq<u8>,
    p: int,
    have: Seq<u8>,
    total: int,
) -> Option<(Seq<u8>, int)>
    decreases data.len() * 8 - p,
{
    proof {
        lemma_symbol_end(code, data, p, 1);
    }
    if have.len() >= total {
        Some((have, p))
    } else {
        match symbol_at(code, data, p) {
            None => None,
            Some((sym, q)) => if sym <= 15 {
                lengths_from(code, data, q, have.push(sym as u8), total)
            } else {
                let run = if sym == 16 {
                    with_extra(3, 2, data, q)
                } else if sym == 17 {
                    with_extra(3, 3, data, q)
                } else {
                    with_extra(11, 7, data, q)
                };
                let v = if sym == 16 {
                    have.last()
                } else {
                    0u8
                };
                match run {
                    None => None,
                    Some((n, q2)) => if (sym == 16 && have.len() == 0) || have.len() + n > total {
                        None
                    } else {
                        lengths_from(code, data, q2, extended(have, v, n), total)
                    },
                }
            },
        }
    }
}

/// The two codes that a block brings with it at `p`, and where they end.
pub open spec fn own_codes(data: Seq<u8>, p: int) -> Option<(Seq<u8>, Seq<u8>, int)> {
    let hlit = 257 + bits::bits_value(data, p, 5);
    let hdist = 1 + bits::bits_value(data, p + 5, 5);
    let hclen = 4 + bits::bits_value(data, p + 10, 4);
    let code = length_code(data, p + 14, hclen as int);
    if p + 14 + 3 * hclen > data.len() * 8 || !valid_code(code) {
        None
    } else {
        match lengths_from(
            code,
            data,
            p + 14 + 3 * hclen,
            Seq::<u8>::empty(),
            (hlit + hdist) as int,
        ) {
            None => None,
            Some((all, q)) => {
                let lit = all.subrange(0, hlit as int);
                let dist = all.subrange(hlit as int, all.len() as int);
                if valid_code(lit) && valid_code(dist) {
                    Some((lit, dist, q))
                } else {
                    None
                }
            },
        }
    }
}

/// What a block of plain bytes makes of `out`: from the next whole byte on their number, the same
/// number with each bit turned over, and the bytes. And where it ends.
pub open spec fn plain(data: Seq<u8>, p: int, out: Seq<u8>, max: int) -> Option<(Seq<u8>, int)> {
    let k = (p + 7) / 8;
    let n = data[k] + data[k + 1] * 256;
    let check = data[k + 2] + data[k + 3] * 256;
    if k + 4 > data.len() || n + check != 0xffff || out.len() + n > max || k + 4 + n > data.len() {
        None
    } else {
        Some((out + data.subrange(k + 4, k + 4 + n), (k + 4 + n) * 8))
    }
}

/// What the block whose kind stands at `p` makes of `out`, and where it ends.
pub open spec fn block(data: Seq<u8>, p: int, out: Seq<u8>, max: int) -> Option<(Seq<u8>, int)> {
    let kind = bits::bits_value(data, p, 2);
    if p + 2 > data.len() * 8 {
        None
    } else if kind == 0 {
        plain(data, p + 2, out, max)
    } else if kind == 1 {
        codes(fixed_lit(), fixed_dist(), data, p + 2, out, max)
    } else if kind == 2 {
        match own_codes(data, p + 2) {
            None => None,
            Some((lit, dist, q)) => codes(lit, dist, data, q, out, max),
        }
    } else {
        None
    }
}

/// The bytes of the blocks from the bit `p` on, behind `out`. The last block says that it is.
pub open spec fn blocks(data: Seq<u8>, p: int, out: Seq<u8>, max: int) -> Option<Seq<u8>>
    decreases data.len() * 8 - p,
{
    proof {
        lemma_block_end(data, p + 1, out, max);
    }
    if p < 0 || p + 1 > data.len() * 8 {
        None
    } else {
        match block(data, p + 1, out, max) {
            None => None,
            Some((more, q)) => if bits::bit_at(data, p) == 1 {
                Some(more)
            } else {
                blocks(data, q, more, max)
            },
        }
    }
}

/// The bytes that a DEFLATE stream stands for, where there are at most `max`.
pub open spec fn inflated(data: Seq<u8>, max: int) -> Option<Seq<u8>> {
    blocks(data, 0, Seq::<u8>::empty(), max)
}

proof fn lemma_tables()
    ensures
        forall|s: int| 0 <= s < 29 ==> #[trigger] LEN_EXTRA@[s] <= 5,
        forall|s: int| 0 <= s < 30 ==> #[trigger] DIST_EXTRA@[s] <= 13,
        forall|s: int| 0 <= s < 30 ==> #[trigger] DIST_BASE@[s] >= 1,
        forall|s: int| 0 <= s < 19 ==> #[trigger] ORDER@[s] < 19,
{
}

/// Appends `n` bytes, each a copy of the byte `d` before it.
fn repeat(out: &mut Vec<u8>, d: usize, n: usize)
    requires
        1 <= d <= old(out)@.len(),
    ensures
        final(out)@ == repeated(old(out)@, d as int, n as int),
        final(out)@.len() == old(out)@.len() + n,
{
    let mut i: usize = 0;
    while i < n
        invariant
            i <= n,
            1 <= d <= old(out)@.len(),
            out@ == repeated(old(out)@, d as int, i as int),
            out@.len() == old(out)@.len() + i,
        decreases n - i,
    {
        let v: u8 = out[out.len() - d];
        out.push(v);
        i = i + 1;
    }
}

/// Reads a block of codes. The table `lit` is for bytes and lengths, and `dist` for distances.
fn inflate_block(
    lit: &Huff,
    dist: &Huff,
    b: &mut Bits<'_>,
    out: &mut Vec<u8>,
    max_out: usize,
    Ghost(ll): Ghost<Seq<u8>>,
    Ghost(dl): Ghost<Seq<u8>>,
) -> (r: bool)
    requires
        lit.is_table(ll),
        dist.is_table(dl),
        old(b).wf(),
        old(out)@.len() <= max_out,
    ensures
        final(b).wf(),
        final(b).data == old(b).data,
        match codes(ll, dl, old(b).data@, old(b).pos(), old(out)@, max_out as int) {
            Some((more, end)) => r && final(out)@ == more && final(b).pos() == end && more.len()
                <= max_out,
            None => !r,
        },
{
    let ghost d = b.data@;
    let ghost all = codes(ll, dl, d, b.pos(), out@, max_out as int);
    loop
        invariant
            lit.is_table(ll),
            dist.is_table(dl),
            b.wf(),
            b.data == old(b).data,
            d == b.data@,
            out@.len() <= max_out,
            all == codes(ll, dl, old(b).data@, old(b).pos(), old(out)@, max_out as int),
            all == codes(ll, dl, d, b.pos(), out@, max_out as int),
        decreases d.len() * 8 - b.pos(),
    {
        proof {
            lemma_tables();
            lemma_symbol_end(ll, d, b.pos(), 1);
        }
        let sym: u16 = match lit.decode(b, Ghost(ll)) {
            Some(s) => s,
            None => {
                return false;
            },
        };
        if sym < 256 {
            if out.len() >= max_out {
                return false;
            }
            out.push(sym as u8);
        } else if sym == 256 {
            return true;
        } else if sym > 285 {
            return false;
        } else {
            let s: usize = sym as usize - 257;
            proof {
                lemma_repetition_end(dl, d, s as int, b.pos());
            }
            let more: u32 = match b.read(LEN_EXTRA[s] as u32) {
                Some(v) => v,
                None => {
                    return false;
                },
            };
            proof {
                power2::lemma2_to64();
                power2::lemma_pow2_strictly_increases(LEN_EXTRA@[s as int] as nat, 14);
            }
            let len: usize = LEN_BASE[s] as usize + more as usize;
            let ds: usize = match dist.decode(b, Ghost(dl)) {
                Some(v) => v as usize,
                None => {
                    return false;
                },
            };
            if ds >= 30 {
                return false;
            }
            let far: u32 = match b.read(DIST_EXTRA[ds] as u32) {
                Some(v) => v,
                None => {
                    return false;
                },
            };
            proof {
                power2::lemma_pow2_strictly_increases(DIST_EXTRA@[ds as int] as nat, 14);
            }
            let back: usize = DIST_BASE[ds] as usize + far as usize;
            if back > out.len() || len > max_out - out.len() {
                return false;
            }
            repeat(out, back, len);
        }
    }
}

/// Reads the two codes that a block brings with it, as their lengths.
fn dynamic_lengths(b: &mut Bits<'_>) -> (r: Option<(Vec<u8>, usize)>)
    requires
        old(b).wf(),
    ensures
        final(b).wf(),
        final(b).data == old(b).data,
        ({
            let p = old(b).pos();
            let d = old(b).data@;
            let hlit = 257 + bits::bits_value(d, p, 5);
            let hdist = 1 + bits::bits_value(d, p + 5, 5);
            let hclen = 4 + bits::bits_value(d, p + 10, 4);
            let code = length_code(d, p + 14, hclen as int);
            let all = lengths_from(
                code,
                d,
                p + 14 + 3 * hclen,
                Seq::<u8>::empty(),
                (hlit + hdist) as int,
            );
            match r {
                Some((v, n)) => p + 14 + 3 * hclen <= d.len() * 8 && valid_code(code) && n == hlit
                    && n <= 288 && all == Some((v@, final(b).pos())) && v@.len() == hlit + hdist
                    && v@.len() <= 320,
                None => p + 14 + 3 * hclen > d.len() * 8 || !valid_code(code) || all is None,
            }
        }),
{
    let ghost d = b.data@;
    let ghost p = b.pos();
    proof {
        power2::lemma2_to64();
        lemma_tables();
    }
    let hlit: usize = match b.read(5) {
        Some(v) => 257 + v as usize,
        None => {
            return None;
        },
    };
    let hdist: usize = match b.read(5) {
        Some(v) => 1 + v as usize,
        None => {
            return None;
        },
    };
    let hclen: usize = match b.read(4) {
        Some(v) => 4 + v as usize,
        None => {
            return None;
        },
    };
    let mut clen: Vec<u8> = vec![0u8; 19];
    assert(clen@ =~= length_code(d, p + 14, 0));
    let mut i: usize = 0;
    while i < hclen
        invariant
            i <= hclen <= 19,
            hclen == 4 + bits::bits_value(d, p + 10, 4),
            p == old(b).pos(),
            b.wf(),
            b.data == old(b).data,
            d == b.data@,
            b.pos() == p + 14 + 3 * i,
            clen@.len() == 19,
            clen@ == length_code(d, p + 14, i as int),
        decreases hclen - i,
    {
        proof {
            power2::lemma2_to64();
            lemma_tables();
        }
        let v: u32 = match b.read(3) {
            Some(v) => v,
            None => {
                return None;
            },
        };
        let at: usize = ORDER[i];
        clen.set(at, v as u8);
        i = i + 1;
    }
    let ghost code_lengths = clen@;
    let code = match Huff::build(&clen) {
        Some(h) => h,
        None => {
            return None;
        },
    };
    let total: usize = hlit + hdist;
    let mut have: Vec<u8> = Vec::new();
    let ghost all = lengths_from(code_lengths, d, b.pos(), Seq::<u8>::empty(), total as int);
    assert(have@ =~= Seq::<u8>::empty());
    while have.len() < total
        invariant
            code.is_table(code_lengths),
            code_lengths.len() == 19,
            b.wf(),
            b.data == old(b).data,
            d == b.data@,
            total <= 320,
            have@.len() <= total,
            all == lengths_from(code_lengths, d, b.pos(), have@, total as int),
            p == old(b).pos(),
            hlit == 257 + bits::bits_value(d, p, 5),
            hdist == 1 + bits::bits_value(d, p + 5, 5),
            hclen == 4 + bits::bits_value(d, p + 10, 4),
            total == hlit + hdist,
            code_lengths == length_code(d, p + 14, hclen as int),
            all == lengths_from(
                code_lengths,
                d,
                p + 14 + 3 * hclen,
                Seq::<u8>::empty(),
                total as int,
            ),
        decreases d.len() * 8 - b.pos(),
    {
        proof {
            power2::lemma2_to64();
            lemma_symbol_end(code_lengths, d, b.pos(), 1);
        }
        let sym: u16 = match code.decode(b, Ghost(code_lengths)) {
            Some(s) => s,
            None => {
                return None;
            },
        };
        if sym <= 15 {
            have.push(sym as u8);
        } else {
            let ghost q = b.pos();
            let (base, extra): (usize, u32) = if sym == 16 {
                (3, 2)
            } else if sym == 17 {
                (3, 3)
            } else {
                (11, 7)
            };
            let more: u32 = match b.read(extra) {
                Some(v) => v,
                None => {
                    return None;
                },
            };
            let n: usize = base + more as usize;
            let v: u8 = if sym == 16 {
                if have.len() == 0 {
                    return None;
                }
                have[have.len() - 1]
            } else {
                0
            };
            if n > total - have.len() {
                return None;
            }
            let ghost before = have@;
            let mut k: usize = 0;
            assert(extended(before, v, 0) =~= before);
            while k < n
                invariant
                    k <= n,
                    have@ == extended(before, v, k as int),
                decreases n - k,
            {
                have.push(v);
                k = k + 1;
                assert(have@ =~= extended(before, v, k as int));
            }
        }
    }
    Some((have, hlit))
}

/// Reads the two codes that a block brings with it, and the block.
fn dynamic_block(b: &mut Bits<'_>, out: &mut Vec<u8>, max_out: usize) -> (r: bool)
    requires
        old(b).wf(),
        old(out)@.len() <= max_out,
    ensures
        final(b).wf(),
        final(b).data == old(b).data,
        match own_codes(old(b).data@, old(b).pos()) {
            None => !r,
            Some((lit, dist, q)) => match codes(
                lit,
                dist,
                old(b).data@,
                q,
                old(out)@,
                max_out as int,
            ) {
                Some((more, end)) => r && final(out)@ == more && final(b).pos() == end
                    && more.len() <= max_out,
                None => !r,
            },
        },
{
    let (lengths, hlit) = match dynamic_lengths(b) {
        Some(v) => v,
        None => {
            return false;
        },
    };
    let ghost ll = lengths@.subrange(0, hlit as int);
    let ghost dl = lengths@.subrange(hlit as int, lengths@.len() as int);
    let lit = match Huff::build(&lengths[0..hlit]) {
        Some(h) => h,
        None => {
            return false;
        },
    };
    let dist = match Huff::build(&lengths[hlit..lengths.len()]) {
        Some(h) => h,
        None => {
            return false;
        },
    };
    inflate_block(&lit, &dist, b, out, max_out, Ghost(ll), Ghost(dl))
}

/// How many of the first `n` lengths of the fixed code have each value.
pub(crate) proof fn lemma_fixed_lit_counts(n: int, l: int)
    requires
        0 <= n <= 288,
    ensures
        count_of(fixed_lit().take(n), l) == (if l == 8 {
            if n <= 144 {
                n
            } else if n <= 280 {
                144
            } else {
                144 + (n - 280)
            }
        } else if l == 9 {
            if n <= 144 {
                0
            } else if n <= 256 {
                n - 144
            } else {
                112
            }
        } else if l == 7 {
            if n <= 256 {
                0
            } else if n <= 280 {
                n - 256
            } else {
                24
            }
        } else {
            0
        }),
    decreases n,
{
    let s = fixed_lit().take(n);
    if n > 0 {
        lemma_fixed_lit_counts(n - 1, l);
        assert(s.drop_last() =~= fixed_lit().take(n - 1));
        assert(s.last() == fixed_lit()[n - 1]);
    }
}

/// All the lengths of the fixed code for distances are 5.
pub(crate) proof fn lemma_fixed_dist_counts(n: int, l: int)
    requires
        0 <= n <= 30,
    ensures
        count_of(fixed_dist().take(n), l) == (if l == 5 {
            n
        } else {
            0
        }),
    decreases n,
{
    let s = fixed_dist().take(n);
    if n > 0 {
        lemma_fixed_dist_counts(n - 1, l);
        assert(s.drop_last() =~= fixed_dist().take(n - 1));
        assert(s.last() == 5);
    }
}

/// Only the lengths that occur take up codes.
proof fn lemma_kraft_step(lengths: Seq<u8>, l: int)
    requires
        1 <= l <= 15,
    ensures
        kraft(lengths, l) == kraft(lengths, l - 1) + count_of(lengths, l) * power2::pow2(
            (15 - l) as nat,
        ),
        count_of(lengths, l) == 0 ==> kraft(lengths, l) == kraft(lengths, l - 1),
{
    if count_of(lengths, l) == 0 {
        assert(0 * power2::pow2((15 - l) as nat) == 0) by (nonlinear_arith);
    }
}

/// What the fixed codes of `l` bits take up.
proof fn lemma_fixed_step(l: int)
    requires
        1 <= l <= 15,
    ensures
        kraft(fixed_lit(), l) == kraft(fixed_lit(), l - 1) + (if l == 7 {
            6144
        } else if l == 8 {
            19_456
        } else if l == 9 {
            7168
        } else {
            0int
        }),
        kraft(fixed_dist(), l) == kraft(fixed_dist(), l - 1) + (if l == 5 {
            30_720
        } else {
            0int
        }),
{
    let a = fixed_lit();
    let d = fixed_dist();
    assert(a.take(288) =~= a);
    assert(d.take(30) =~= d);
    lemma_fixed_lit_counts(288, l);
    lemma_fixed_dist_counts(30, l);
    lemma_kraft_step(a, l);
    lemma_kraft_step(d, l);
    power2::lemma2_to64();
}

/// The fixed lengths make codes.
pub proof fn lemma_fixed_codes()
    ensures
        valid_code(fixed_lit()),
        valid_code(fixed_dist()),
{
    let a = fixed_lit();
    let d = fixed_dist();
    assert(kraft(a, 0) == 0 && kraft(d, 0) == 0);
    lemma_fixed_step(1);
    assert(kraft(a, 1) == 0 && kraft(d, 1) == 0);
    lemma_fixed_step(2);
    assert(kraft(a, 2) == 0 && kraft(d, 2) == 0);
    lemma_fixed_step(3);
    assert(kraft(a, 3) == 0 && kraft(d, 3) == 0);
    lemma_fixed_step(4);
    assert(kraft(a, 4) == 0 && kraft(d, 4) == 0);
    lemma_fixed_step(5);
    assert(kraft(a, 5) == 0 && kraft(d, 5) == 30720);
    lemma_fixed_step(6);
    assert(kraft(a, 6) == 0 && kraft(d, 6) == 30720);
    lemma_fixed_step(7);
    assert(kraft(a, 7) == 6144 && kraft(d, 7) == 30720);
    lemma_fixed_step(8);
    assert(kraft(a, 8) == 25600 && kraft(d, 8) == 30720);
    lemma_fixed_step(9);
    assert(kraft(a, 9) == 32768 && kraft(d, 9) == 30720);
    lemma_fixed_step(10);
    assert(kraft(a, 10) == 32768 && kraft(d, 10) == 30720);
    lemma_fixed_step(11);
    assert(kraft(a, 11) == 32768 && kraft(d, 11) == 30720);
    lemma_fixed_step(12);
    assert(kraft(a, 12) == 32768 && kraft(d, 12) == 30720);
    lemma_fixed_step(13);
    assert(kraft(a, 13) == 32768 && kraft(d, 13) == 30720);
    lemma_fixed_step(14);
    assert(kraft(a, 14) == 32768 && kraft(d, 14) == 30720);
    lemma_fixed_step(15);
    assert(kraft(a, 15) == 32768 && kraft(d, 15) == 30720);
}

/// Reads a block in the fixed codes.
fn fixed_block(b: &mut Bits<'_>, out: &mut Vec<u8>, max_out: usize) -> (r: bool)
    requires
        old(b).wf(),
        old(out)@.len() <= max_out,
    ensures
        final(b).wf(),
        final(b).data == old(b).data,
        match codes(
            fixed_lit(),
            fixed_dist(),
            old(b).data@,
            old(b).pos(),
            old(out)@,
            max_out as int,
        ) {
            Some((more, end)) => r && final(out)@ == more && final(b).pos() == end && more.len()
                <= max_out,
            None => !r,
        },
{
    let mut lens: Vec<u8> = Vec::new();
    let mut i: usize = 0;
    while i < 288
        invariant
            i <= 288,
            lens@ == fixed_lit().take(i as int),
        decreases 288 - i,
    {
        lens.push(
            if i < 144 {
                8
            } else if i < 256 {
                9
            } else if i < 280 {
                7
            } else {
                8
            },
        );
        i = i + 1;
        assert(fixed_lit().take(i as int) =~= fixed_lit().take(i - 1).push(fixed_lit()[i - 1]));
    }
    let dists: Vec<u8> = vec![5u8; 30];
    proof {
        lemma_fixed_codes();
        assert(fixed_lit().take(288) =~= fixed_lit());
        assert(dists@ =~= fixed_dist());
    }
    match (Huff::build(&lens), Huff::build(&dists)) {
        (Some(lit), Some(dist)) => inflate_block(
            &lit,
            &dist,
            b,
            out,
            max_out,
            Ghost(fixed_lit()),
            Ghost(fixed_dist()),
        ),
        _ => false,
    }
}

/// Reads a block of plain bytes.
fn plain_block(b: &mut Bits<'_>, out: &mut Vec<u8>, max_out: usize) -> (r: bool)
    requires
        old(b).wf(),
        old(out)@.len() <= max_out,
    ensures
        final(b).wf(),
        final(b).data == old(b).data,
        match plain(old(b).data@, old(b).pos(), old(out)@, max_out as int) {
            Some((more, end)) => r && final(out)@ == more && final(b).pos() == end && more.len()
                <= max_out,
            None => !r,
        },
{
    b.align();
    let data = b.data;
    let k: usize = b.byte;
    assert(k == (old(b).pos() + 7) / 8);
    if data.len() - k < 4 {
        return false;
    }
    let n: usize = data[k] as usize + data[k + 1] as usize * 256;
    let check: usize = data[k + 2] as usize + data[k + 3] as usize * 256;
    if n + check != 0xffff || n > max_out - out.len() || n > data.len() - k - 4 {
        return false;
    }
    let ghost before = out@;
    let mut i: usize = 0;
    while i < n
        invariant
            i <= n,
            k + 4 + n <= data.len(),
            out@ == before + data@.subrange(k + 4, k + 4 + i),
        decreases n - i,
    {
        out.push(data[k + 4 + i]);
        i = i + 1;
        assert(out@ =~= before + data@.subrange(k + 4, k + 4 + i));
    }
    b.byte = k + 4 + n;
    true
}

/// The bytes that a DEFLATE stream stands for; `None` where it is damaged or cut off, or where
/// there are more than `max_out`.
pub fn inflate(src: &[u8], max_out: usize) -> (r: Option<Vec<u8>>)
    ensures
        match inflated(src@, max_out as int) {
            Some(out) => r matches Some(v) && v@ == out,
            None => r is None,
        },
{
    let mut b = Bits::new(src);
    let mut out: Vec<u8> = Vec::new();
    assert(out@ =~= Seq::<u8>::empty());
    loop
        invariant
            b.wf(),
            b.data == src,
            out@.len() <= max_out,
            inflated(src@, max_out as int) == blocks(src@, b.pos(), out@, max_out as int),
        decreases src@.len() * 8 - b.pos(),
    {
        proof {
            power2::lemma2_to64();
            lemma_block_end(src@, b.pos() + 1, out@, max_out as int);
            bits::lemma_bit_at(src@, b.pos());
        }
        let last: u32 = match b.read_bit() {
            Some(v) => v,
            None => {
                return None;
            },
        };
        let kind: u32 = match b.read(2) {
            Some(v) => v,
            None => {
                return None;
            },
        };
        let ok = if kind == 0 {
            plain_block(&mut b, &mut out, max_out)
        } else if kind == 1 {
            fixed_block(&mut b, &mut out, max_out)
        } else if kind == 2 {
            dynamic_block(&mut b, &mut out, max_out)
        } else {
            false
        };
        if !ok {
            return None;
        }
        if last == 1 {
            return Some(out);
        }
    }
}

/// The DEFLATE stream inside the zlib wrapping: two bytes before it and four behind it. The first
/// must name DEFLATE, and the second no dictionary; the checksum behind is not looked at.
pub open spec fn unwrapped(z: Seq<u8>) -> Option<Seq<u8>> {
    if z.len() < 6 || z[0] & 0x0f != 8 || z[1] & 0x20 != 0 {
        None
    } else {
        Some(z.subrange(2, z.len() - 4))
    }
}

/// The DEFLATE stream inside the zlib wrapping.
pub fn skip_zlib(z: &[u8]) -> (r: Option<&[u8]>)
    ensures
        match unwrapped(z@) {
            Some(s) => r matches Some(v) && v@ == s,
            None => r is None,
        },
{
    if z.len() < 6 || z[0] & 0x0f != 8 || z[1] & 0x20 != 0 {
        return None;
    }
    Some(&z[2..z.len() - 4])
}

/// A block of plain bytes gives those bytes back: the stream made of one such block, the last, with
/// the bytes `payload` is read as `payload` wherever it may be that long, and not where it may not.
pub proof fn law_plain_roundtrip(payload: Seq<u8>, max: int)
    requires
        payload.len() <= 0xffff,
    ensures
        ({
            let n = payload.len();
            let m = 0xffff - n;
            let stream = seq![
                1u8,
                (n % 256) as u8,
                (n / 256) as u8,
                (m % 256) as u8,
                (m / 256) as u8,
            ] + payload;
            inflated(stream, max) == (if n <= max {
                Some(payload)
            } else {
                None::<Seq<u8>>
            })
        }),
{
    let n = payload.len();
    let m = 0xffff - n;
    let stream = seq![
        1u8,
        (n % 256) as u8,
        (n / 256) as u8,
        (m % 256) as u8,
        (m / 256) as u8,
    ] + payload;
    power2::lemma2_to64();
    assert(stream[0] == 1);
    assert((1u8 >> 0u8) & 1 == 1) by (bit_vector);
    assert((1u8 >> 1u8) & 1 == 0) by (bit_vector);
    assert((1u8 >> 2u8) & 1 == 0) by (bit_vector);
    assert(bits::bit_at(stream, 0) == 1);
    assert(bits::bit_at(stream, 1) == 0);
    assert(bits::bit_at(stream, 2) == 0);
    reveal_with_fuel(bits::bits_value, 3);
    assert(0 * power2::pow2(0) == 0 && 0 * power2::pow2(1) == 0) by (nonlinear_arith);
    assert(bits::bits_value(stream, 1, 2) == 0);
    assert(stream.subrange(5, 5 + n as int) =~= payload);
    assert(Seq::<u8>::empty() + payload =~= payload);
}

proof fn lemma_repeated_len(out: Seq<u8>, d: int, n: int)
    requires
        n >= 0,
    ensures
        repeated(out, d, n).len() == out.len() + n,
    decreases n,
{
    if n > 0 {
        lemma_repeated_len(out, d, n - 1);
    }
}

/// A repetition has a length that is not negative.
proof fn lemma_repetition_len(dist: Seq<u8>, data: Seq<u8>, s: int, p: int)
    ensures
        repetition(dist, data, s, p) matches Some((len, d, q)) ==> len >= 0,
{
}

/// What a block of codes makes within one limit, it makes within any larger one.
proof fn lemma_codes_limit(
    lit: Seq<u8>,
    dist: Seq<u8>,
    data: Seq<u8>,
    p: int,
    out: Seq<u8>,
    small: int,
    large: int,
)
    requires
        out.len() <= small <= large,
        codes(lit, dist, data, p, out, small) is Some,
    ensures
        codes(lit, dist, data, p, out, large) == codes(lit, dist, data, p, out, small),
        codes(lit, dist, data, p, out, small) matches Some((more, q)) ==> more.len() <= small,
    decreases data.len() * 8 - p,
{
    lemma_symbol_end(lit, data, p, 1);
    match symbol_at(lit, data, p) {
        None => {},
        Some((sym, q)) => {
            if sym < 256 {
                lemma_codes_limit(lit, dist, data, q, out.push(sym as u8), small, large);
            } else if 256 < sym <= 285 {
                lemma_repetition_end(dist, data, sym - 257, q);
                lemma_repetition_len(dist, data, sym - 257, q);
                match repetition(dist, data, sym - 257, q) {
                    None => {},
                    Some((len, d, q2)) => {
                        lemma_repeated_len(out, d, len);
                        lemma_codes_limit(lit, dist, data, q2, repeated(out, d, len), small, large);
                    },
                }
            }
        },
    }
}

/// What a block makes within one limit, it makes within any larger one.
proof fn lemma_block_limit(data: Seq<u8>, p: int, out: Seq<u8>, small: int, large: int)
    requires
        p >= 0,
        out.len() <= small <= large,
        block(data, p, out, small) is Some,
    ensures
        block(data, p, out, large) == block(data, p, out, small),
        block(data, p, out, small) matches Some((more, q)) ==> more.len() <= small,
{
    let kind = bits::bits_value(data, p, 2);
    if kind == 0 {
        let k = (p + 2 + 7) / 8;
        let n = data[k] + data[k + 1] * 256;
        assert(data.subrange(k + 4, k + 4 + n).len() == n);
    } else if kind == 1 {
        lemma_codes_limit(fixed_lit(), fixed_dist(), data, p + 2, out, small, large);
    } else if kind == 2 {
        match own_codes(data, p + 2) {
            None => {},
            Some((lit, dist, q)) => {
                lemma_codes_limit(lit, dist, data, q, out, small, large);
            },
        }
    }
}

/// What blocks make within one limit, they make within any larger one.
proof fn lemma_blocks_limit(data: Seq<u8>, p: int, out: Seq<u8>, small: int, large: int)
    requires
        out.len() <= small <= large,
        blocks(data, p, out, small) is Some,
    ensures
        blocks(data, p, out, large) == blocks(data, p, out, small),
        blocks(data, p, out, small) matches Some(all) ==> all.len() <= small,
    decreases data.len() * 8 - p,
{
    lemma_block_end(data, p + 1, out, small);
    lemma_block_limit(data, p + 1, out, small, large);
    match block(data, p + 1, out, small) {
        None => {},
        Some((more, q)) => {
            if bits::bit_at(data, p) != 1 {
                lemma_blocks_limit(data, q, more, small, large);
            }
        },
    }
}

/// The limit only ever refuses: what comes out within one limit is no longer than that, and the
/// same comes out within any larger one.
pub proof fn law_limit_only_refuses(data: Seq<u8>, small: int, large: int)
    requires
        0 <= small <= large,
        inflated(data, small) is Some,
    ensures
        inflated(data, large) == inflated(data, small),
        inflated(data, small) matches Some(out) ==> out.len() <= small,
{
    lemma_blocks_limit(data, 0, Seq::<u8>::empty(), small, large);
}

} // verus!
